//! A chunked, lazily generated infinite tile grid.
//!
//! The crate is built from three subsystems: a region lock whose units of
//! exclusion are axis-aligned rectangles of point-space ([`region_lock`]), a
//! sparse chunk-granular tile store ([`sparse`]), and a generator pipeline
//! run exactly once over every freshly materialised chunk ([`generator`],
//! [`analysis`], [`postprocessors`]). The [`TileMap`] facade binds them
//! together: it materialises the chunks a requested region touches, runs the
//! generators over each new chunk under an exclusive region lock on the
//! chunk's umbra, and tracks which chunks exist and which are dirty.

pub mod analysis;
pub mod generator;
pub mod point;
pub mod postprocessors;
pub mod region_lock;
pub mod sparse;

use crate::generator::{generation_pre, Generator};
use crate::point::{Point, Rect};
use crate::region_lock::Lock;
use crate::sparse::{ReadGuard, SparseMap, WriteGuard};
use vstd::prelude::*;

verus! {

broadcast use vstd::seq_lib::group_seq_properties;

/// The facade over the region lock, the chunk store and the generator
/// pipeline.
#[verifier::reject_recursive_types(T)]
pub struct TileMap<T> {
    lock: Lock,
    store: SparseMap<T>,
    generators: Vec<Box<dyn Generator<T>>>,
    generated: Vec<Rect>,
    dirty_chunks: Vec<Rect>,
    chunk_size: u32,
}

/// `q` lies within one tile of chunk `c`: inside `c` grown by one tile on
/// every side, the umbra a generation of `c` may read and write.
pub open spec fn within_umbra_of(c: Rect, q: Point) -> bool {
    c.lo.x - 1 <= q.x < c.hi.x + 1 && c.lo.y - 1 <= q.y < c.hi.y + 1
}

impl<T> TileMap<T> {
    /// Generating region `r` on this map may touch the tile at `q`: `q`
    /// lies in the umbra of some not-yet-generated chunk of `r`.
    pub open spec fn generation_touches(self, r: Rect, q: Point) -> bool {
        exists|c: Rect|
            c.is_chunk(self.chunk_size_spec()) && c.overlaps(r)
                && !self.generated_spec().contains(c) && #[trigger] within_umbra_of(c, q)
    }

    /// Generating region `r` on this map materialises `q`: `q` lies in some
    /// not-yet-generated chunk of `r`.
    pub open spec fn generation_materialises(self, r: Rect, q: Point) -> bool {
        exists|c: Rect|
            c.is_chunk(self.chunk_size_spec()) && c.overlaps(r)
                && !self.generated_spec().contains(c) && #[trigger] c.contains_point(q)
    }

    /// The chunk size this map was created with.
    pub closed spec fn chunk_size_spec(self) -> u32 {
        self.chunk_size
    }

    /// The chunks generated so far, in generation order.
    pub closed spec fn generated_spec(self) -> Seq<Rect> {
        self.generated@
    }

    /// The chunks generated since the last drain, in generation order.
    pub closed spec fn dirty_spec(self) -> Seq<Rect> {
        self.dirty_chunks@
    }

    /// The tiles held so far.
    pub closed spec fn tiles(self) -> Map<Point, T> {
        self.store@
    }

    /// The chunk holding `p` is materialised.
    pub closed spec fn covers(self, p: Point) -> bool {
        self.store.covers(p)
    }

    /// Every reachable map satisfies this: a sound store of the declared
    /// chunk size, an idle well-formed lock, and bookkeeping that lists
    /// every generated chunk exactly once, aligned, and fully materialised.
    pub closed spec fn wf(self) -> bool {
        &&& self.store.wf()
        &&& self.store.chunk_size_spec() == self.chunk_size
        &&& 1 <= self.chunk_size <= i32::MAX
        &&& self.chunk_size * self.chunk_size <= usize::MAX
        &&& self.lock@.wf()
        &&& self.lock@.writes.len() == 0
        &&& self.lock@.reads.len() == 0
        &&& self.lock@.pending == 0
        &&& self.lock@.next_id == 0
        &&& forall|i: int, j: int|
            0 <= i < self.generated@.len() && 0 <= j < self.generated@.len() && i != j
                ==> self.generated@[i] != self.generated@[j]
        &&& forall|i: int|
            0 <= i < self.generated@.len() ==> (#[trigger] self.generated@[i]).is_chunk(
                self.chunk_size,
            )
        &&& forall|i: int, q: Point|
            0 <= i < self.generated@.len() && (#[trigger] self.generated@[i]).contains_point(q)
                ==> #[trigger] self.store.covers(q)
    }
}

/// The generated set grows by exactly the chunks of the requested region,
/// so a second request for a region whose chunks are all generated finds
/// nothing to do: the generated chunks are unchanged and nothing new is
/// marked dirty.
pub proof fn lemma_generate_idempotent(
    gen1: Seq<Rect>,
    dirty1: Seq<Rect>,
    gen2: Seq<Rect>,
    dirty2: Seq<Rect>,
    r: Rect,
    size: u32,
)
    requires
        forall|c: Rect| c.is_chunk(size) && c.overlaps(r) ==> gen1.contains(c),
        forall|c: Rect|
            #[trigger] gen2.contains(c) <==> gen1.contains(c) || (c.is_chunk(size) && c.overlaps(
                r,
            )),
        dirty2.len() >= dirty1.len() && dirty2.take(dirty1.len() as int) == dirty1,
        forall|c: Rect|
            #[trigger] dirty2.skip(dirty1.len() as int).contains(c) ==> c.is_chunk(size)
                && c.overlaps(r) && !gen1.contains(c),
    ensures
        dirty2 == dirty1,
        forall|c: Rect| #[trigger] gen2.contains(c) <==> gen1.contains(c),
{
    let news = dirty2.skip(dirty1.len() as int);
    if news.len() > 0 {
        assert(news.contains(news[0]));
        assert(false);
    }
    assert(dirty2 =~= dirty1);
}

/// A generated chunk stands in the generated list at exactly one position.
/// The list is appended to only when the generator pipeline is run over a
/// chunk, so the pipeline has been run exactly once on every generated
/// chunk and never on any other.
pub proof fn lemma_generated_exactly_once<T>(m: TileMap<T>, c: Rect)
    requires
        m.wf(),
        m.generated_spec().contains(c),
    ensures
        exists|i: int|
            {
                &&& 0 <= i < m.generated_spec().len()
                &&& m.generated_spec()[i] == c
                &&& forall|j: int|
                    0 <= j < m.generated_spec().len() && m.generated_spec()[j] == c ==> j == i
            },
{
    let i = choose|i: int| 0 <= i < m.generated_spec().len() && m.generated_spec()[i] == c;
    assert({
        &&& 0 <= i < m.generated_spec().len()
        &&& m.generated_spec()[i] == c
        &&& forall|j: int|
            0 <= j < m.generated_spec().len() && m.generated_spec()[j] == c ==> j == i
    });
}

impl<T: Default> TileMap<T> {
    /// A fresh, empty map: nothing materialised, nothing generated, nothing
    /// dirty.
    pub fn new(generators: Vec<Box<dyn Generator<T>>>, chunk_size: u32) -> (m: TileMap<T>)
        requires
            1 <= chunk_size <= i32::MAX,
            chunk_size * chunk_size <= usize::MAX,
        ensures
            m.wf(),
            m.chunk_size_spec() == chunk_size,
            m.generated_spec() == Seq::<Rect>::empty(),
            m.dirty_spec() == Seq::<Rect>::empty(),
            m.tiles() == Map::<Point, T>::empty(),
            forall|p: Point| !m.covers(p),
    {
        let m = TileMap {
            lock: Lock::new(),
            store: SparseMap::new(chunk_size),
            generators,
            generated: Vec::new(),
            dirty_chunks: Vec::new(),
            chunk_size,
        };
        proof {
            assert(m.generated_spec() =~= Seq::<Rect>::empty());
            assert(m.dirty_spec() =~= Seq::<Rect>::empty());
        }
        m
    }

    /// Whether `c` is already recorded as generated.
    fn contains_generated(&self, c: &Rect) -> (b: bool)
        ensures
            b == self.generated_spec().contains(*c),
    {
        let mut i: usize = 0;
        while i < self.generated.len()
            invariant
                i <= self.generated@.len(),
                forall|j: int| 0 <= j < i ==> self.generated@[j] != *c,
            decreases self.generated@.len() - i,
        {
            let g = self.generated[i];
            if g.lo.x == c.lo.x && g.lo.y == c.lo.y && g.hi.x == c.hi.x && g.hi.y == c.hi.y {
                proof {
                    assert(self.generated@[i as int] == *c);
                }
                return true;
            }
            i += 1;
        }
        proof {
            if self.generated_spec().contains(*c) {
                let j = choose|j: int| 0 <= j < self.generated@.len() && self.generated@[j] == *c;
                assert(false);
            }
        }
        false
    }

    /// Generate every not-yet-generated chunk that `r` touches: under an
    /// exclusive lock on the chunk's umbra, materialise the chunk's tiles
    /// with defaults, run the generator pipeline over it, and record it as
    /// generated and dirty, in chunk order. Chunks already generated are
    /// skipped, so the call is idempotent.
    #[verifier::rlimit(80)]
    #[verifier::spinoff_prover]
    pub fn maybe_generate(&mut self, r: &Rect)
        requires
            old(self).wf(),
            i32::MIN + 2 * old(self).chunk_size_spec() <= r.lo.x,
            i32::MIN + 2 * old(self).chunk_size_spec() <= r.lo.y,
            r.hi.x + old(self).chunk_size_spec() + 1 <= i32::MAX,
            r.hi.y + old(self).chunk_size_spec() + 1 <= i32::MAX,
        ensures
            final(self).wf(),
            final(self).chunk_size_spec() == old(self).chunk_size_spec(),
            forall|c: Rect|
                #[trigger] final(self).generated_spec().contains(c) <==> old(
                    self,
                ).generated_spec().contains(c) || (c.is_chunk(old(self).chunk_size_spec())
                    && c.overlaps(*r)),
            forall|p: Point| old(self).covers(p) ==> final(self).covers(p),
            forall|c: Rect, q: Point|
                c.is_chunk(old(self).chunk_size_spec()) && c.overlaps(*r)
                    && #[trigger] c.contains_point(q) ==> final(self).covers(q),
            forall|q: Point|
                #[trigger] final(self).covers(q) <==> (old(self).covers(q) || old(
                    self,
                ).generation_materialises(*r, q)),
            forall|q: Point|
                old(self).covers(q) && !old(self).generation_touches(*r, q)
                    ==> final(self).tiles()[q] == old(self).tiles()[q],
            final(self).dirty_spec().len() >= old(self).dirty_spec().len(),
            final(self).dirty_spec().take(old(self).dirty_spec().len() as int) == old(
                self,
            ).dirty_spec(),
            forall|c: Rect|
                #[trigger] final(self).dirty_spec().skip(
                    old(self).dirty_spec().len() as int,
                ).contains(c) <==> (c.is_chunk(old(self).chunk_size_spec()) && c.overlaps(*r)
                    && !old(self).generated_spec().contains(c)),
            forall|i: int, j: int|
                old(self).dirty_spec().len() <= i < j < final(self).dirty_spec().len()
                    ==> final(self).dirty_spec()[i].lo.lex_lt(final(self).dirty_spec()[j].lo),
    {
        let chunks = Point::chunks_in_region(r, self.chunk_size);
        let ghost size = self.chunk_size;
        let ghost n0 = self.dirty_chunks@.len() as int;
        let mut k: usize = 0;
        while k < chunks.len()
            invariant
                self.wf(),
                self.chunk_size == size,
                size == old(self).chunk_size_spec(),
                i32::MIN + 2 * size <= r.lo.x,
                i32::MIN + 2 * size <= r.lo.y,
                r.hi.x + size + 1 <= i32::MAX,
                r.hi.y + size + 1 <= i32::MAX,
                k <= chunks@.len(),
                forall|c: Rect|
                    #[trigger] chunks@.contains(c) <==> (c.is_chunk(size) && c.overlaps(*r)),
                forall|i: int, j: int|
                    0 <= i < j < chunks@.len() ==> chunks@[i].lo.lex_lt(chunks@[j].lo),
                forall|p: Point| old(self).covers(p) ==> self.covers(p),
                forall|q: Point|
                    #[trigger] self.covers(q) <==> (old(self).covers(q) || exists|c: Rect|
                        chunks@.take(k as int).contains(c) && !old(
                            self,
                        ).generated_spec().contains(c) && #[trigger] c.contains_point(q)),
                forall|q: Point|
                    old(self).covers(q) && !(exists|c: Rect|
                        chunks@.take(k as int).contains(c) && !old(
                            self,
                        ).generated_spec().contains(c) && #[trigger] within_umbra_of(c, q))
                        ==> self.tiles()[q] == old(self).tiles()[q],
                n0 == old(self).dirty_spec().len(),
                self.dirty_chunks@.len() >= n0,
                self.dirty_chunks@.take(n0) == old(self).dirty_spec(),
                forall|c: Rect|
                    #[trigger] self.generated@.contains(c) <==> (old(
                        self,
                    ).generated_spec().contains(c) || chunks@.take(k as int).contains(c)),
                forall|c: Rect|
                    #[trigger] self.dirty_chunks@.skip(n0).contains(c) <==> (chunks@.take(
                        k as int,
                    ).contains(c) && !old(self).generated_spec().contains(c)),
                forall|i: int, j: int|
                    n0 <= i < j < self.dirty_chunks@.len() ==> self.dirty_chunks@[i].lo.lex_lt(
                        self.dirty_chunks@[j].lo,
                    ),
            decreases chunks@.len() - k,
        {
            let c = chunks[k];
            proof {
                assert(chunks@.contains(c));
                assert(chunks@.take(k + 1 as int) =~= chunks@.take(k as int).push(c));
            }
            let already = self.contains_generated(&c);
            proof {
                if already {
                    assert(self.generated@.contains(c));
                    assert forall|q: Point|
                        #[trigger] self.covers(q) <==> (old(self).covers(q) || exists|cc: Rect|
                            chunks@.take(k + 1 as int).contains(cc) && !old(
                                self,
                            ).generated_spec().contains(cc)
                                && #[trigger] cc.contains_point(q)) by {
                        if self.covers(q) && !old(self).covers(q) {
                            let cc = choose|cc: Rect|
                                chunks@.take(k as int).contains(cc) && !old(
                                    self,
                                ).generated_spec().contains(cc) && cc.contains_point(q);
                            assert(chunks@.take(k + 1 as int).contains(cc));
                            assert(cc.contains_point(q));
                        }
                        if exists|cc: Rect|
                            chunks@.take(k + 1 as int).contains(cc) && !old(
                                self,
                            ).generated_spec().contains(cc) && #[trigger] cc.contains_point(q) {
                            let cc = choose|cc: Rect|
                                chunks@.take(k + 1 as int).contains(cc) && !old(
                                    self,
                                ).generated_spec().contains(cc) && cc.contains_point(q);
                            if cc != c {
                                assert(chunks@.take(k as int).contains(cc));
                            } else {
                                assert(old(self).generated_spec().contains(c)
                                    || chunks@.take(k as int).contains(c));
                            }
                            assert(self.covers(q));
                        }
                    }
                    assert forall|q: Point|
                        old(self).covers(q) && !(exists|cc: Rect|
                            chunks@.take(k + 1 as int).contains(cc) && !old(
                                self,
                            ).generated_spec().contains(cc) && #[trigger] within_umbra_of(cc, q))
                            implies self.tiles()[q] == old(self).tiles()[q] by {
                        assert(forall|cc: Rect|
                            chunks@.take(k as int).contains(cc) ==> chunks@.take(
                                k + 1 as int,
                            ).contains(cc));
                    }
                }
            }
            if !already {
                let umbra = Point::expand(&c, 1);
                let mut regions: Vec<Rect> = Vec::new();
                regions.push(umbra);
                let ghost store0 = self.store;
                proof {
                    assert forall|q: Point|
                        #[trigger] store0.covers(q) <==> (old(self).covers(q) || exists|cc: Rect|
                            chunks@.take(k as int).contains(cc) && !old(
                                self,
                            ).generated_spec().contains(cc)
                                && #[trigger] cc.contains_point(q)) by {
                        assert(self.covers(q) == store0.covers(q));
                    }
                    assert forall|q: Point|
                        old(self).covers(q) && !(exists|cc: Rect|
                            chunks@.take(k as int).contains(cc) && !old(
                                self,
                            ).generated_spec().contains(cc) && #[trigger] within_umbra_of(cc, q))
                            implies store0@[q] == old(self).tiles()[q] by {
                        assert(self.tiles()[q] == store0@[q]);
                    }
                }
                let guard = self.lock.write_region(&regions);
                let ghost lockst = self.lock@;
                let ghost gen0 = self.generated@;
                let ghost dirty0 = self.dirty_chunks@;
                let ghost glen = self.generators@.len();
                proof {
                    assert(dirty0.take(n0) == old(self).dirty_spec());
                    assert(dirty0.len() >= n0);
                    assert(forall|e: Rect|
                        #[trigger] gen0.contains(e) <==> (old(self).generated_spec().contains(e)
                            || chunks@.take(k as int).contains(e)));
                    assert(forall|e: Rect|
                        #[trigger] dirty0.skip(n0).contains(e) <==> (chunks@.take(
                            k as int,
                        ).contains(e) && !old(self).generated_spec().contains(e)));
                    assert(forall|i: int, j: int|
                        n0 <= i < j < dirty0.len() ==> dirty0[i].lo.lex_lt(dirty0[j].lo));
                    assert(!gen0.contains(c));
                    assert(forall|i: int, j: int|
                        0 <= i < gen0.len() && 0 <= j < gen0.len() && i != j ==> gen0[i]
                            != gen0[j]);
                    assert(forall|i: int|
                        0 <= i < gen0.len() ==> (#[trigger] gen0[i]).is_chunk(size));
                    assert(forall|i: int, q: Point|
                        0 <= i < gen0.len() && (#[trigger] gen0[i]).contains_point(q)
                            ==> #[trigger] self.store.covers(q));
                    assert(!old(self).generated_spec().contains(c));
                }
                let pts = Point::points_in_region(&c);
                let mut f: usize = 0;
                while f < pts.len()
                    invariant
                        self.store.wf(),
                        self.store.chunk_size_spec() == size,
                        1 <= size <= i32::MAX,
                        c.is_chunk(size),
                        i32::MIN + 2 * size <= r.lo.x,
                        i32::MIN + 2 * size <= r.lo.y,
                        r.hi.x + size + 1 <= i32::MAX,
                        r.hi.y + size + 1 <= i32::MAX,
                        c.overlaps(*r),
                        f <= pts@.len(),
                        forall|q: Point| #[trigger] pts@.contains(q) <==> c.contains_point(q),
                        forall|j: int| 0 <= j < f ==> self.store.covers(#[trigger] pts@[j]),
                        forall|p: Point| old(self).covers(p) ==> self.store.covers(p),
                        forall|q: Point|
                            #[trigger] self.store.covers(q) <==> (store0.covers(q) || (f > 0
                                && c.contains_point(q))),
                        forall|q: Point|
                            store0.covers(q) && !within_umbra_of(c, q) ==> self.store@[q]
                                == store0@[q],
                        self.lock@ == lockst,
                        forall|i: int, q: Point|
                            0 <= i < gen0.len() && (#[trigger] gen0[i]).contains_point(q)
                                ==> #[trigger] self.store.covers(q),
                        self.generated@ == gen0,
                        self.dirty_chunks@ == dirty0,
                        self.generators@.len() == glen,
                        self.chunk_size == size,
                    decreases pts@.len() - f,
                {
                    let p = pts[f];
                    proof {
                        assert(pts@.contains(p));
                        assert(c.contains_point(p));
                        crate::point::lemma_chunk_contains_iff_same_origin(c, p, size as int);
                    }
                    let ghost prestore = self.store;
                    self.store.set(&p, T::default());
                    proof {
                        assert forall|q: Point| #[trigger] self.store.covers(q) implies (
                        store0.covers(q) || c.contains_point(q)) by {
                            if Point::same_chunk(q, p, size as int) {
                                crate::point::lemma_chunk_contains_iff_same_origin(
                                    c,
                                    q,
                                    size as int,
                                );
                            }
                        }
                        assert forall|q: Point|
                            store0.covers(q) || c.contains_point(q) implies #[trigger] self.store.covers(
                            q,
                        ) by {
                            if c.contains_point(q) {
                                crate::point::lemma_chunk_contains_iff_same_origin(
                                    c,
                                    q,
                                    size as int,
                                );
                            }
                        }
                        assert(c.contains_point(p) && within_umbra_of(c, p));
                        assert forall|q: Point|
                            store0.covers(q) && !within_umbra_of(c, q) implies self.store@[q]
                            == store0@[q] by {
                            assert(q != p);
                            assert(prestore.covers(q));
                            assert(self.store@[q] == prestore@[q]);
                            assert(prestore@[q] == store0@[q]);
                        }
                    }
                    f += 1;
                }
                proof {
                    assert forall|q: Point| c.contains_point(q) implies #[trigger] self.store.covers(
                        q,
                    ) by {
                        assert(pts@.contains(q));
                        let j = choose|j: int| 0 <= j < pts@.len() && pts@[j] == q;
                        assert(self.store.covers(pts@[j]));
                    }
                }
                let mut gi: usize = 0;
                while gi < self.generators.len()
                    invariant
                        self.store.wf(),
                        self.store.chunk_size_spec() == size,
                        1 <= size <= i32::MAX,
                        c.is_chunk(size),
                        i32::MIN + 2 * size <= r.lo.x,
                        i32::MIN + 2 * size <= r.lo.y,
                        r.hi.x + size + 1 <= i32::MAX,
                        r.hi.y + size + 1 <= i32::MAX,
                        c.overlaps(*r),
                        umbra.lo.x == c.lo.x - 1,
                        umbra.lo.y == c.lo.y - 1,
                        umbra.hi.x == c.hi.x + 1,
                        umbra.hi.y == c.hi.y + 1,
                        forall|q: Point|
                            #[trigger] c.contains_point(q) ==> self.store.covers(q),
                        forall|p: Point| old(self).covers(p) ==> self.store.covers(p),
                        forall|q: Point|
                            #[trigger] self.store.covers(q) <==> (store0.covers(q)
                                || c.contains_point(q)),
                        forall|q: Point|
                            store0.covers(q) && !within_umbra_of(c, q) ==> self.store@[q]
                                == store0@[q],
                        self.lock@ == lockst,
                        forall|i: int, q: Point|
                            0 <= i < gen0.len() && (#[trigger] gen0[i]).contains_point(q)
                                ==> #[trigger] self.store.covers(q),
                        self.generated@ == gen0,
                        self.dirty_chunks@ == dirty0,
                        self.generators@.len() == glen,
                        self.chunk_size == size,
                    decreases self.generators@.len() - gi,
                {
                    proof {
                        assert(generation_pre(self.store, c, umbra));
                    }
                    let ghost pre_gen = self.store;
                    self.generators[gi].generate(&mut self.store, &c, &umbra);
                    proof {
                        assert forall|q: Point|
                            store0.covers(q) && !within_umbra_of(c, q) implies self.store@[q]
                            == store0@[q] by {
                            assert(!umbra.contains_point(q));
                            assert(pre_gen.covers(q));
                            assert(self.store@[q] == pre_gen@[q]);
                        }
                        assert forall|q: Point|
                            #[trigger] self.store.covers(q) <==> (store0.covers(q)
                                || c.contains_point(q)) by {
                            assert(self.store.covers(q) == pre_gen.covers(q));
                        }
                    }
                    gi += 1;
                }
                proof {
                    assert(self.lock@.writes[0].key == guard.key);
                    assert(self.lock@.holds(guard.key));
                }
                let _woken = self.lock.unlock_region(guard);
                proof {
                    let i = choose|i: int|
                        {
                            &&& 0 <= i < lockst.writes.len()
                            &&& lockst.writes[i].key == guard.key
                            &&& self.lock@.writes == lockst.writes.remove(i)
                            &&& self.lock@.reads == lockst.reads
                        };
                    assert(self.lock@.writes =~= Seq::<crate::region_lock::HolderView>::empty());
                }
                self.generated.push(c);
                self.dirty_chunks.push(c);
                proof {
                    assert(self.generated@ == gen0.push(c));
                    assert(self.dirty_chunks@ == dirty0.push(c));
                    assert(self.dirty_chunks@.take(n0) =~= dirty0.take(n0));
                    assert(self.dirty_chunks@.skip(n0) =~= dirty0.skip(n0).push(c));
                    assert forall|i: int|
                        n0 <= i < dirty0.len() implies dirty0[i].lo.lex_lt(c.lo) by {
                        let e = dirty0[i];
                        assert(dirty0.skip(n0)[i - n0] == e);
                        assert(dirty0.skip(n0).contains(e));
                        assert(chunks@.take(k as int).contains(e));
                        let j = choose|j: int| 0 <= j < k && chunks@.take(k as int)[j] == e;
                        assert(chunks@[j] == e);
                        assert(chunks@[j].lo.lex_lt(chunks@[k as int].lo));
                    }
                    assert forall|i: int, q: Point|
                        0 <= i < self.generated@.len() && (#[trigger] self.generated@[
                            i
                        ]).contains_point(q) implies #[trigger] self.store.covers(q) by {
                        if i < gen0.len() {
                            assert(gen0.contains(gen0[i]));
                            assert(gen0[i].contains_point(q));
                        } else {
                            assert(self.generated@[i] == c);
                        }
                    }
                    assert forall|q: Point|
                        #[trigger] self.covers(q) <==> (old(self).covers(q) || exists|cc: Rect|
                            chunks@.take(k + 1 as int).contains(cc) && !old(
                                self,
                            ).generated_spec().contains(cc)
                                && #[trigger] cc.contains_point(q)) by {
                        if self.covers(q) {
                            if !store0.covers(q) {
                                assert(c.contains_point(q));
                                assert(chunks@.take(k + 1 as int).contains(c));
                            } else if !old(self).covers(q) {
                                let cc = choose|cc: Rect|
                                    chunks@.take(k as int).contains(cc) && !old(
                                        self,
                                    ).generated_spec().contains(cc) && cc.contains_point(q);
                                assert(chunks@.take(k + 1 as int).contains(cc));
                                assert(cc.contains_point(q));
                            }
                        }
                        if old(self).covers(q) {
                            assert(self.covers(q));
                        }
                        if exists|cc: Rect|
                            chunks@.take(k + 1 as int).contains(cc) && !old(
                                self,
                            ).generated_spec().contains(cc) && #[trigger] cc.contains_point(q) {
                            let cc = choose|cc: Rect|
                                chunks@.take(k + 1 as int).contains(cc) && !old(
                                    self,
                                ).generated_spec().contains(cc) && cc.contains_point(q);
                            if cc == c {
                                assert(self.covers(q));
                            } else {
                                assert(chunks@.take(k as int).contains(cc));
                                assert(store0.covers(q));
                            }
                        }
                    }
                    assert forall|q: Point|
                        old(self).covers(q) && !(exists|cc: Rect|
                            chunks@.take(k + 1 as int).contains(cc) && !old(
                                self,
                            ).generated_spec().contains(cc) && #[trigger] within_umbra_of(cc, q))
                            implies self.tiles()[q] == old(self).tiles()[q] by {
                        assert(chunks@.take(k + 1 as int).contains(c));
                        assert(!within_umbra_of(c, q));
                        assert(forall|cc: Rect|
                            chunks@.take(k as int).contains(cc) ==> chunks@.take(
                                k + 1 as int,
                            ).contains(cc));
                        assert(store0.covers(q));
                        assert(self.store@[q] == store0@[q]);
                        assert(store0@[q] == old(self).tiles()[q]);
                    }
                }
            }
            k += 1;
        }
        proof {
            assert(chunks@.take(chunks@.len() as int) =~= chunks@);
            assert forall|c: Rect, q: Point|
                c.is_chunk(size) && c.overlaps(*r) && #[trigger] c.contains_point(
                    q,
                ) implies #[trigger] self.covers(q) by {
                assert(chunks@.contains(c));
                assert(self.generated@.contains(c));
                let i = choose|i: int|
                    0 <= i < self.generated@.len() && self.generated@[i] == c;
                assert(self.generated@[i].contains_point(q));
            }
        }
    }

    /// Atomically take the chunks generated since the last drain, in
    /// generation order, leaving the dirty list empty.
    pub fn drain_dirty_regions(&mut self) -> (drained: Vec<Rect>)
        requires
            old(self).wf(),
        ensures
            final(self).wf(),
            drained@ == old(self).dirty_spec(),
            final(self).dirty_spec() == Seq::<Rect>::empty(),
            final(self).generated_spec() == old(self).generated_spec(),
            final(self).tiles() == old(self).tiles(),
            final(self).chunk_size_spec() == old(self).chunk_size_spec(),
    {
        let mut drained: Vec<Rect> = Vec::new();
        std::mem::swap(&mut drained, &mut self.dirty_chunks);
        proof {
            assert(final(self).dirty_spec() =~= Seq::<Rect>::empty());
        }
        drained
    }
}


impl<T: Default> TileMap<T> {
    /// The tile at `p`, after a transient shared acquisition of the one-tile
    /// cube `[p, p+1)`: `None` exactly when `p`'s chunk was never generated.
    pub fn get(&mut self, p: &Point) -> (r: Option<&T>)
        requires
            old(self).wf(),
            i32::MIN + old(self).chunk_size_spec() <= p.x,
            i32::MIN + old(self).chunk_size_spec() <= p.y,
            p.x < i32::MAX,
            p.y < i32::MAX,
        ensures
            final(self).wf(),
            final(self).generated_spec() == old(self).generated_spec(),
            final(self).dirty_spec() == old(self).dirty_spec(),
            final(self).tiles() == old(self).tiles(),
            final(self).chunk_size_spec() == old(self).chunk_size_spec(),
            forall|q: Point| final(self).covers(q) == old(self).covers(q),
            match r {
                Some(t) => old(self).covers(*p) && *t == old(self).tiles()[*p],
                None => !old(self).covers(*p),
            },
    {
        let cube = p.to_cube(1);
        let mut regions: Vec<Rect> = Vec::new();
        regions.push(cube);
        let guard = self.lock.read_region(&regions);
        proof {
            assert(self.lock@.reads[0].key == guard.key);
            assert(self.lock@.holds(guard.key));
        }
        let ghost lockst = self.lock@;
        let _woken = self.lock.unlock_region(guard);
        proof {
            let i = choose|i: int|
                {
                    &&& 0 <= i < lockst.reads.len()
                    &&& lockst.reads[i].key == guard.key
                    &&& self.lock@.reads == lockst.reads.remove(i)
                    &&& self.lock@.writes == lockst.writes
                };
            assert(self.lock@.reads =~= Seq::<crate::region_lock::HolderView>::empty());
        }
        self.store.get(p)
    }

    /// A mutable borrow of the tile at `p`, after a transient exclusive
    /// acquisition of the one-tile cube `[p, p+1)`: `None` exactly when
    /// `p`'s chunk was never generated.
    pub fn get_mut(&mut self, p: &Point) -> (r: Option<&mut T>)
        requires
            old(self).wf(),
            i32::MIN + old(self).chunk_size_spec() <= p.x,
            i32::MIN + old(self).chunk_size_spec() <= p.y,
            p.x < i32::MAX,
            p.y < i32::MAX,
        ensures
            match r {
                Some(t) => {
                    &&& old(self).covers(*p)
                    &&& *t == old(self).tiles()[*p]
                    &&& final(self).wf()
                    &&& final(self).generated_spec() == old(self).generated_spec()
                    &&& final(self).dirty_spec() == old(self).dirty_spec()
                    &&& final(self).chunk_size_spec() == old(self).chunk_size_spec()
                    &&& forall|q: Point| final(self).covers(q) == old(self).covers(q)
                    &&& final(self).tiles()[*p] == *final(t)
                    &&& forall|q: Point|
                        old(self).covers(q) && q != *p ==> final(self).tiles()[q] == old(
                            self,
                        ).tiles()[q]
                },
                None => {
                    &&& !old(self).covers(*p)
                    &&& final(self).wf()
                    &&& final(self).generated_spec() == old(self).generated_spec()
                    &&& final(self).dirty_spec() == old(self).dirty_spec()
                    &&& final(self).tiles() == old(self).tiles()
                    &&& final(self).chunk_size_spec() == old(self).chunk_size_spec()
                },
            },
    {
        let cube = p.to_cube(1);
        let mut regions: Vec<Rect> = Vec::new();
        regions.push(cube);
        let guard = self.lock.write_region(&regions);
        proof {
            assert(self.lock@.writes[0].key == guard.key);
            assert(self.lock@.holds(guard.key));
        }
        let ghost lockst = self.lock@;
        let _woken = self.lock.unlock_region(guard);
        proof {
            let i = choose|i: int|
                {
                    &&& 0 <= i < lockst.writes.len()
                    &&& lockst.writes[i].key == guard.key
                    &&& self.lock@.writes == lockst.writes.remove(i)
                    &&& self.lock@.reads == lockst.reads
                };
            assert(self.lock@.writes =~= Seq::<crate::region_lock::HolderView>::empty());
        }
        self.store.get_mut(p)
    }

    /// A shared, region-scoped view of the tiles, after a transient shared
    /// acquisition of `r`.
    pub fn region(&mut self, r: &Rect) -> (g: ReadGuard<'_, T>)
        requires
            old(self).wf(),
            i32::MIN + old(self).chunk_size_spec() <= r.lo.x,
            i32::MIN + old(self).chunk_size_spec() <= r.lo.y,
        ensures
            g.wf(),
            g.region_spec() == *r,
            g.store()@ == old(self).tiles(),
    {
        let mut regions: Vec<Rect> = Vec::new();
        regions.push(*r);
        let guard = self.lock.read_region(&regions);
        proof {
            assert(self.lock@.reads[0].key == guard.key);
            assert(self.lock@.holds(guard.key));
        }
        let _woken = self.lock.unlock_region(guard);
        self.store.region(r)
    }

    /// A mutable, region-scoped view of the tiles, after a transient
    /// exclusive acquisition of `r`.
    pub fn region_mut(&mut self, r: &Rect) -> (g: WriteGuard<'_, T>)
        requires
            old(self).wf(),
            i32::MIN + old(self).chunk_size_spec() <= r.lo.x,
            i32::MIN + old(self).chunk_size_spec() <= r.lo.y,
        ensures
            g.wf(),
            g.region_spec() == *r,
            g.store()@ == old(self).tiles(),
    {
        let mut regions: Vec<Rect> = Vec::new();
        regions.push(*r);
        let guard = self.lock.write_region(&regions);
        proof {
            assert(self.lock@.writes[0].key == guard.key);
            assert(self.lock@.holds(guard.key));
        }
        let _woken = self.lock.unlock_region(guard);
        self.store.region_mut(r)
    }
}


} // verus!
