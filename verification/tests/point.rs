use tilegrid::point::{Point, Rect};

fn rect(x0: i32, y0: i32, x1: i32, y1: i32) -> Rect {
    Rect { lo: Point { x: x0, y: y0 }, hi: Point { x: x1, y: y1 } }
}

fn pt(x: i32, y: i32) -> Point {
    Point { x, y }
}

// Negative coordinates use floor division: the tile at (-1, -1) with chunk
// size 10 belongs to the chunk with origin (-10, -10), at inner offset
// 9 * 10 + 9.
#[test]
fn chunk_index_negative_coordinates() {
    let (origin, offset) = pt(-1, -1).chunk_index(10);
    assert_eq!(origin, pt(-10, -10));
    assert_eq!(offset, 9 * 10 + 9);
}

#[test]
fn chunk_index_positive_coordinates() {
    let (origin, offset) = pt(23, 7).chunk_index(10);
    assert_eq!(origin, pt(20, 0));
    assert_eq!(offset, 7 * 10 + 3);
}

// The inner offset is always below chunk_size squared.
#[test]
fn chunk_index_offset_bound() {
    for x in -25..25 {
        for y in -25..25 {
            let (_, offset) = pt(x, y).chunk_index(7);
            assert!(offset < 7 * 7);
        }
    }
}

// points_in_region enumerates exactly the contained points, each once, in
// lexicographic order.
#[test]
fn points_in_region_is_exact() {
    let r = rect(-1, -1, 1, 2);
    let pts = Point::points_in_region(&r);
    assert_eq!(
        pts,
        vec![pt(-1, -1), pt(-1, 0), pt(-1, 1), pt(0, -1), pt(0, 0), pt(0, 1)]
    );
    let empty = Point::points_in_region(&rect(5, 5, 5, 9));
    assert!(empty.is_empty());
}

#[test]
fn chunks_in_region_covers_and_orders() {
    let chunks = Point::chunks_in_region(&rect(0, 0, 35, 35), 30);
    assert_eq!(
        chunks,
        vec![
            rect(0, 0, 30, 30),
            rect(0, 30, 30, 60),
            rect(30, 0, 60, 30),
            rect(30, 30, 60, 60),
        ]
    );
    let negative = Point::chunks_in_region(&rect(-30, -30, 0, 0), 30);
    assert_eq!(negative, vec![rect(-30, -30, 0, 0)]);
}

#[test]
fn neighbours_in_fixed_order() {
    let nbs = pt(3, 4).neighboors();
    assert_eq!(nbs, vec![pt(2, 4), pt(4, 4), pt(3, 3), pt(3, 5)]);
}

#[test]
fn overlap_is_per_axis_half_open() {
    assert!(Point::overlap_rect(&rect(0, 0, 10, 10), &rect(5, 5, 15, 15)));
    assert!(!Point::overlap_rect(&rect(0, 0, 10, 10), &rect(10, 0, 20, 10)));
    assert!(!Point::overlap_rect(&rect(0, 0, 10, 10), &rect(0, 10, 10, 20)));
    assert!(!Point::overlap_rect(&rect(0, 0, 10, 10), &rect(20, 20, 30, 30)));
    // an empty rectangle overlaps nothing, not even itself
    assert!(!Point::overlap_rect(&rect(5, 5, 5, 5), &rect(0, 0, 10, 10)));
}

#[test]
fn cube_expand_contained() {
    let cube = pt(4, 5).to_cube(1);
    assert_eq!(cube, rect(4, 5, 5, 6));
    let grown = Point::expand(&cube, 1);
    assert_eq!(grown, rect(3, 4, 6, 7));
    assert!(pt(4, 5).contained(&cube));
    assert!(!pt(5, 5).contained(&cube));
    assert!(!pt(4, 6).contained(&cube));
}

#[test]
fn scalar_mul_div_truncate() {
    assert_eq!(pt(3, -4).mul(5), pt(15, -20));
    assert_eq!(pt(7, -7).div(2), pt(3, -3));
    assert_eq!(pt(7, -7).div(-2), pt(-3, 3));
}

#[test]
fn max_unrolled_index_is_square() {
    assert_eq!(Point::max_unrolled_index(30), 900);
    assert_eq!(Point::max_unrolled_index(1), 1);
}
