use tilegrid::point::{Point, Rect};
use tilegrid::sparse::SparseMap;

fn rect(x0: i32, y0: i32, x1: i32, y1: i32) -> Rect {
    Rect { lo: Point { x: x0, y: y0 }, hi: Point { x: x1, y: y1 } }
}

fn pt(x: i32, y: i32) -> Point {
    Point { x, y }
}

#[derive(Default, Debug)]
struct Tile {
    a: i32,
    b: i32,
}

#[test]
fn write_points() {
    let mut map: SparseMap<Tile> = SparseMap::new(10);
    let mut region = map.region_mut(&rect(0, 0, 100, 100));
    region.set(&pt(50, 50), Tile { a: 42, b: 43 }).unwrap();
    println!("{:?}", region.get(&pt(50, 50)).unwrap().unwrap());
    assert!(region.get(&pt(50, 50)).unwrap().unwrap().a == 42);
}

#[test]
fn write_points_then_read() {
    let mut map: SparseMap<Tile> = SparseMap::new(10);
    let mut region = map.region_mut(&rect(0, 0, 100, 100));
    region.set(&pt(50, 50), Tile { a: 42, b: 43 }).unwrap();

    let region = map.region(&rect(0, 0, 100, 100));
    let t = region.get(&pt(50, 50)).unwrap().unwrap();
    assert!(t.a == 42);
}

// A guard refuses points outside its region instead of touching them.
#[test]
fn guard_out_of_region() {
    let mut map: SparseMap<Tile> = SparseMap::new(10);
    let mut region = map.region_mut(&rect(0, 0, 20, 20));
    assert!(region.set(&pt(25, 5), Tile { a: 1, b: 2 }).is_err());
    assert!(region.get(&pt(25, 5)).is_err());
    assert!(region.get_mut(&pt(25, 5)).is_err());
    let read = map.region(&rect(0, 0, 20, 20));
    assert!(read.get(&pt(-1, 0)).is_err());
}

// A point in a never-materialised chunk reads back as absent.
#[test]
fn unmaterialised_chunk_reads_none() {
    let mut map: SparseMap<Tile> = SparseMap::new(10);
    map.set(&pt(5, 5), Tile { a: 7, b: 8 });
    assert!(map.get(&pt(5, 5)).is_some());
    assert!(map.get(&pt(55, 55)).is_none());
    assert!(map.get_mut(&pt(55, 55)).is_none());
}

// Writing one point materialises its whole chunk with default tiles.
#[test]
fn set_fills_chunk_with_defaults() {
    let mut map: SparseMap<Tile> = SparseMap::new(10);
    map.set(&pt(3, 4), Tile { a: 9, b: 9 });
    let other = map.get(&pt(0, 0)).expect("same chunk is materialised");
    assert_eq!(other.a, 0);
    assert_eq!(other.b, 0);
    assert!(map.get(&pt(9, 9)).is_some());
    assert!(map.get(&pt(10, 9)).is_none());
}

// Negative coordinates bucket into the chunk at the floor-aligned origin.
#[test]
fn negative_coordinates_bucket_by_floor() {
    let mut map: SparseMap<Tile> = SparseMap::new(10);
    map.set(&pt(-1, -1), Tile { a: 5, b: 6 });
    assert!(map.get(&pt(-10, -10)).is_some());
    assert!(map.get(&pt(-11, -10)).is_none());
    assert!(map.get(&pt(0, 0)).is_none());
    assert_eq!(map.get(&pt(-1, -1)).unwrap().a, 5);
}

// The chunks of a region that were never written are reported empty, in
// ascending order, and disappear from the report once written.
#[test]
fn empty_in_region_reports_missing_chunks() {
    let mut map: SparseMap<Tile> = SparseMap::new(10);
    let empties = map.empty_in_region(&rect(0, 0, 20, 20));
    assert_eq!(empties.len(), 4);
    assert_eq!(empties[0], rect(0, 0, 10, 10));
    assert_eq!(empties[1], rect(0, 10, 10, 20));
    assert_eq!(empties[2], rect(10, 0, 20, 10));
    assert_eq!(empties[3], rect(10, 10, 20, 20));
    map.set(&pt(5, 5), Tile::default());
    let empties = map.empty_in_region(&rect(0, 0, 20, 20));
    assert_eq!(empties.len(), 3);
    assert!(empties.iter().all(|c| c.lo != pt(0, 0)));
}

// enumerate yields the guard's region in lexicographic order, pairing with
// get and set for a full sweep.
#[test]
fn enumerate_sweeps_region() {
    let mut map: SparseMap<Tile> = SparseMap::new(10);
    let mut region = map.region_mut(&rect(0, 0, 2, 2));
    let pts = region.enumerate();
    assert_eq!(pts, vec![pt(0, 0), pt(0, 1), pt(1, 0), pt(1, 1)]);
    for (i, p) in pts.iter().enumerate() {
        region.set(p, Tile { a: i as i32, b: 0 }).unwrap();
    }
    assert_eq!(region.get(&pt(1, 0)).unwrap().unwrap().a, 2);
}
