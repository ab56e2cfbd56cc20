use tilegrid::analysis::{Connected, Connectivity, GridTile, Passable};
use tilegrid::generator::{Generator, GeneratorSequence};
use tilegrid::point::{Point, Rect};
use tilegrid::postprocessors::AllConnected;
use tilegrid::sparse::SparseMap;
use tilegrid::TileMap;

fn rect(x0: i32, y0: i32, x1: i32, y1: i32) -> Rect {
    Rect { lo: Point { x: x0, y: y0 }, hi: Point { x: x1, y: y1 } }
}

fn pt(x: i32, y: i32) -> Point {
    Point { x, y }
}

/// A deterministic terrain source standing in for a noise generator: a tile
/// is passable unless its mixed coordinate hash lands on a sparse lattice.
struct HashTerrain;

impl Generator<GridTile> for HashTerrain {
    fn generate(&mut self, store: &mut SparseMap<GridTile>, core_region: &Rect, _umbra: &Rect) {
        for p in Point::points_in_region(core_region) {
            let mix = (p.x.wrapping_mul(31) ^ p.y.wrapping_mul(17)).rem_euclid(5);
            if let Some(t) = store.get_mut(&p) {
                t.set_passable(mix != 0);
            }
        }
    }
}

fn count_components(map: &mut TileMap<GridTile>, core: Rect) -> usize {
    let guard = map.region(&core);
    let pts = Point::points_in_region(&core);
    let passable: Vec<bool> = pts
        .iter()
        .map(|p| match guard.get(p) {
            Ok(Some(t)) => t.is_passable(),
            _ => false,
        })
        .collect();
    let w = (core.hi.x - core.lo.x) as usize;
    let h = (core.hi.y - core.lo.y) as usize;
    // points_in_region is lexicographic: x outer, y inner
    let at = |x: usize, y: usize| x * h + y;
    let mut seen = vec![false; passable.len()];
    let mut components = 0;
    for start in 0..passable.len() {
        if passable[start] && !seen[start] {
            components += 1;
            let mut stack = vec![start];
            seen[start] = true;
            while let Some(cur) = stack.pop() {
                let x = cur / h;
                let y = cur % h;
                let mut neighbours = Vec::new();
                if x > 0 {
                    neighbours.push(at(x - 1, y));
                }
                if x + 1 < w {
                    neighbours.push(at(x + 1, y));
                }
                if y > 0 {
                    neighbours.push(at(x, y - 1));
                }
                if y + 1 < h {
                    neighbours.push(at(x, y + 1));
                }
                for nb in neighbours {
                    if passable[nb] && !seen[nb] {
                        seen[nb] = true;
                        stack.push(nb);
                    }
                }
            }
        }
    }
    components
}

// Basic generate-and-read: after generating one 30-by-30 chunk through
// AllConnected, every tile reads back with a defined passable bit and the
// passable tiles form one component (or none at all).
#[test]
fn basic_generate_and_read() {
    let pipeline: Vec<Box<dyn Generator<GridTile>>> =
        vec![Box::new(AllConnected::new(Box::new(HashTerrain)))];
    let mut map = TileMap::new(pipeline, 30);
    map.maybe_generate(&rect(0, 0, 30, 30));
    let guard = map.region(&rect(0, 0, 30, 30));
    let mut passable_count = 0;
    for p in Point::points_in_region(&rect(0, 0, 30, 30)) {
        let tile = guard.get(&p).expect("in region").expect("generated");
        if tile.is_passable() {
            passable_count += 1;
        }
    }
    assert!(passable_count > 0);
    let components = count_components(&mut map, rect(0, 0, 30, 30));
    assert!(components <= 1);
}

// Generating two non-overlapping regions produces both chunks; the dirty
// list holds both origins.
#[test]
fn disjoint_regions_both_generate() {
    let pipeline: Vec<Box<dyn Generator<GridTile>>> = vec![Box::new(HashTerrain)];
    let mut map = TileMap::new(pipeline, 30);
    map.maybe_generate(&rect(0, 0, 30, 30));
    map.maybe_generate(&rect(60, 60, 90, 90));
    let dirty = map.drain_dirty_regions();
    assert_eq!(dirty, vec![rect(0, 0, 30, 30), rect(60, 60, 90, 90)]);
    assert!(map.get(&pt(0, 0)).is_some());
    assert!(map.get(&pt(89, 89)).is_some());
}

// Requesting the same region twice generates the chunk exactly once: the
// dirty list holds a single entry.
#[test]
fn repeated_region_generates_once() {
    let pipeline: Vec<Box<dyn Generator<GridTile>>> = vec![Box::new(HashTerrain)];
    let mut map = TileMap::new(pipeline, 30);
    map.maybe_generate(&rect(0, 0, 30, 30));
    map.maybe_generate(&rect(0, 0, 30, 30));
    let dirty = map.drain_dirty_regions();
    assert_eq!(dirty, vec![rect(0, 0, 30, 30)]);
}

// Negative coordinates: generating [-30,-30)..[0,0) materialises the chunk
// with origin (-30,-30); the tile at (-1,-1) is readable and its chunk
// index flattens to 29 * 30 + 29.
#[test]
fn negative_coordinates_generate() {
    let pipeline: Vec<Box<dyn Generator<GridTile>>> = vec![Box::new(HashTerrain)];
    let mut map = TileMap::new(pipeline, 30);
    map.maybe_generate(&rect(-30, -30, 0, 0));
    let dirty = map.drain_dirty_regions();
    assert_eq!(dirty, vec![rect(-30, -30, 0, 0)]);
    assert!(map.get(&pt(-1, -1)).is_some());
    let (origin, offset) = pt(-1, -1).chunk_index(30);
    assert_eq!(origin, pt(-30, -30));
    assert_eq!(offset, 29 * 30 + 29);
}

// Dirty drain: three generated chunks drain in generation order, and a
// second drain is empty.
#[test]
fn dirty_drain_in_order_then_empty() {
    let pipeline: Vec<Box<dyn Generator<GridTile>>> = vec![Box::new(HashTerrain)];
    let mut map = TileMap::new(pipeline, 10);
    map.maybe_generate(&rect(0, 0, 10, 10));
    map.maybe_generate(&rect(20, 0, 30, 10));
    map.maybe_generate(&rect(40, 0, 50, 10));
    let dirty = map.drain_dirty_regions();
    assert_eq!(
        dirty,
        vec![rect(0, 0, 10, 10), rect(20, 0, 30, 10), rect(40, 0, 50, 10)]
    );
    assert!(map.drain_dirty_regions().is_empty());
}

// A tile in a chunk that was never generated reads back as absent rather
// than panicking.
#[test]
fn ungenerated_tile_is_absent() {
    let pipeline: Vec<Box<dyn Generator<GridTile>>> = vec![Box::new(HashTerrain)];
    let mut map = TileMap::new(pipeline, 10);
    map.maybe_generate(&rect(0, 0, 10, 10));
    assert!(map.get(&pt(50, 50)).is_none());
    assert!(map.get_mut(&pt(50, 50)).is_none());
}

// get_mut exposes a tile for mutation and the change sticks.
#[test]
fn get_mut_mutates_in_place() {
    let pipeline: Vec<Box<dyn Generator<GridTile>>> = vec![Box::new(HashTerrain)];
    let mut map = TileMap::new(pipeline, 10);
    map.maybe_generate(&rect(0, 0, 10, 10));
    let tile = map.get_mut(&pt(5, 5)).expect("generated");
    tile.set_passable(true);
    tile.edges.clear();
    assert!(map.get(&pt(5, 5)).unwrap().is_passable());
}

// Connectivity records an edge from p to q exactly when it records one from
// q to p, exactly when both are passable orthogonal neighbours.
#[test]
fn connectivity_edges_are_symmetric() {
    let pipeline: Vec<Box<dyn Generator<GridTile>>> = vec![
        Box::new(HashTerrain),
        Box::new(Connectivity),
    ];
    let mut map = TileMap::new(pipeline, 10);
    map.maybe_generate(&rect(0, 0, 10, 10));
    let guard = map.region(&rect(0, 0, 10, 10));
    for p in Point::points_in_region(&rect(1, 1, 9, 9)) {
        let tile = guard.get(&p).unwrap().unwrap();
        for q in p.neighboors() {
            let other = guard.get(&q).unwrap().unwrap();
            let expected = tile.is_passable() && other.is_passable();
            assert_eq!(tile.has_edge(&q), expected);
            assert_eq!(other.has_edge(&p), expected);
        }
    }
}

// A generator sequence runs its generators in declared order: terrain
// first, then connectivity over that terrain.
#[test]
fn generator_sequence_composes() {
    let seq: Vec<Box<dyn Generator<GridTile>>> = vec![
        Box::new(HashTerrain),
        Box::new(Connectivity),
    ];
    let pipeline: Vec<Box<dyn Generator<GridTile>>> =
        vec![Box::new(GeneratorSequence::new(seq))];
    let mut map = TileMap::new(pipeline, 10);
    map.maybe_generate(&rect(0, 0, 10, 10));
    let guard = map.region(&rect(0, 0, 10, 10));
    let a = guard.get(&pt(4, 4)).unwrap().unwrap();
    let b = guard.get(&pt(4, 5)).unwrap().unwrap();
    if a.is_passable() && b.is_passable() {
        assert!(a.has_edge(&pt(4, 5)));
        assert!(b.has_edge(&pt(4, 4)));
    }
}

// After AllConnected, a chunk with passable terrain has exactly one
// passable component.
#[test]
fn all_connected_single_component() {
    let pipeline: Vec<Box<dyn Generator<GridTile>>> =
        vec![Box::new(AllConnected::new(Box::new(HashTerrain)))];
    let mut map = TileMap::new(pipeline, 12);
    map.maybe_generate(&rect(0, 0, 12, 12));
    let components = count_components(&mut map, rect(0, 0, 12, 12));
    assert_eq!(components, 1);
    map.maybe_generate(&rect(12, 0, 24, 12));
    let components = count_components(&mut map, rect(12, 0, 24, 12));
    assert_eq!(components, 1);
}

/// A pathological terrain source: two passable tiles in opposite corners of
/// the chunk, everything else impassable — disconnected on purpose.
struct TwoPockets;

impl Generator<GridTile> for TwoPockets {
    fn generate(&mut self, store: &mut SparseMap<GridTile>, core_region: &Rect, _umbra: &Rect) {
        for p in [core_region.lo, pt(core_region.hi.x - 1, core_region.hi.y - 1)] {
            if let Some(t) = store.get_mut(&p) {
                t.set_passable(true);
            }
        }
    }
}

// Even terrain that starts as two isolated passable pockets leaves
// AllConnected with a single connected component.
#[test]
fn all_connected_joins_isolated_pockets() {
    let pipeline: Vec<Box<dyn Generator<GridTile>>> =
        vec![Box::new(AllConnected::new(Box::new(TwoPockets)))];
    let mut map = TileMap::new(pipeline, 8);
    map.maybe_generate(&rect(0, 0, 8, 8));
    let components = count_components(&mut map, rect(0, 0, 8, 8));
    assert_eq!(components, 1);
}
