//! The generator pipeline: transforms invoked once on every freshly
//! materialised chunk.
//!
//! A generator receives mutable access to the store, the chunk's own
//! rectangle (the core region) and the umbra: the core grown by one tile on
//! every side. It may read and write anywhere inside the umbra, so
//! neighbour-aware transforms can act across chunk boundaries; tiles outside
//! the umbra are out of bounds, and every generator must leave them exactly
//! as they were.

use crate::point::{Point, Rect};
use crate::sparse::SparseMap;
use vstd::prelude::*;

verus! {

/// What a generator may assume when invoked: a sound store, a chunk-aligned
/// core with its one-tile umbra inside the safe coordinate range, and every
/// core tile already materialised.
pub open spec fn generation_pre<T>(store: SparseMap<T>, core: Rect, umbra: Rect) -> bool {
    &&& store.wf()
    &&& core.is_chunk(store.chunk_size_spec())
    &&& umbra.lo.x == core.lo.x - 1
    &&& umbra.lo.y == core.lo.y - 1
    &&& umbra.hi.x == core.hi.x + 1
    &&& umbra.hi.y == core.hi.y + 1
    &&& i32::MIN + store.chunk_size_spec() <= umbra.lo.x
    &&& i32::MIN + store.chunk_size_spec() <= umbra.lo.y
    &&& umbra.hi.x <= i32::MAX
    &&& umbra.hi.y <= i32::MAX
    &&& forall|q: Point| core.contains_point(q) ==> store.covers(q)
}

/// What every generator guarantees: the store stays sound, exactly the
/// same chunks are materialised afterwards, and no tile outside the umbra
/// changes. A generator reads and writes tiles; it never materialises or
/// removes a chunk.
pub open spec fn generation_post<T>(pre: SparseMap<T>, post: SparseMap<T>, umbra: Rect) -> bool {
    &&& post.wf()
    &&& post.chunk_size_spec() == pre.chunk_size_spec()
    &&& forall|q: Point| post.covers(q) == pre.covers(q)
    &&& forall|q: Point|
        pre.covers(q) && !umbra.contains_point(q) ==> post@[q] == pre@[q]
}

/// One transform over a freshly materialised chunk.
pub trait Generator<T> {
    /// Generate tile state for `core_region`, reading and writing at will
    /// inside `umbra` and nowhere else.
    fn generate(&mut self, store: &mut SparseMap<T>, core_region: &Rect, umbra: &Rect)
        requires
            generation_pre(*old(store), *core_region, *umbra),
        ensures
            generation_post(*old(store), *final(store), *umbra),
    ;
}

/// A pipeline of generators, run in declared order: later generators see
/// earlier generators' writes.
#[verifier::reject_recursive_types(T)]
pub struct GeneratorSequence<T> {
    generators: Vec<Box<dyn Generator<T>>>,
}

impl<T> GeneratorSequence<T> {
    /// The generators this pipeline runs, in order.
    pub closed spec fn generators_spec(self) -> Seq<Box<dyn Generator<T>>> {
        self.generators@
    }

    /// A pipeline from a list of generators.
    pub fn new(generators: Vec<Box<dyn Generator<T>>>) -> (s: GeneratorSequence<T>)
        ensures
            s.generators_spec() == generators@,
    {
        GeneratorSequence { generators }
    }
}

impl<T> Generator<T> for GeneratorSequence<T> {
    fn generate(&mut self, store: &mut SparseMap<T>, core_region: &Rect, umbra: &Rect) {
        let mut i: usize = 0;
        while i < self.generators.len()
            invariant
                generation_pre(*store, *core_region, *umbra),
                generation_post(*old(store), *store, *umbra),
            decreases self.generators.len() - i,
        {
            self.generators[i].generate(store, core_region, umbra);
            i += 1;
        }
    }
}

} // verus!
