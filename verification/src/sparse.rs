//! A sparse, chunk-granular tile store: a mapping from [`Point`] to tile,
//! materialised one whole chunk at a time.
//!
//! The store keeps a small index from chunk origin to a slot in a list of
//! dense row-major chunk arrays. Writing to a point whose chunk does not
//! exist yet first fills the whole chunk with default tiles; once a chunk
//! exists it is never removed or resized.

use crate::point::{lemma_offset_bounds, lemma_offset_injective, Point, Rect};
use vstd::prelude::*;

verus! {

broadcast use vstd::seq_lib::group_seq_properties;

/// The chunk-granular point-to-tile store.
pub struct SparseMap<T> {
    index: Vec<(Point, usize)>,
    chunks: Vec<Vec<T>>,
    chunk_size: u32,
}

impl<T> SparseMap<T> {
    /// The chunk size this store was created with.
    pub closed spec fn chunk_size_spec(self) -> u32 {
        self.chunk_size
    }

    /// Structural well-formedness: a sound index over full-sized chunks.
    pub closed spec fn wf(self) -> bool {
        &&& 1 <= self.chunk_size <= i32::MAX
        &&& self.chunk_size * self.chunk_size <= usize::MAX
        &&& self.chunks@.len() == self.index@.len()
        &&& forall|i: int|
            0 <= i < self.chunks@.len() ==> (#[trigger] self.chunks@[i])@.len()
                == self.chunk_size * self.chunk_size
        &&& forall|i: int|
            0 <= i < self.index@.len() ==> (#[trigger] self.index@[i]).1 < self.chunks@.len()
        &&& forall|i: int, j: int|
            0 <= i < self.index@.len() && 0 <= j < self.index@.len() && i != j
                ==> (#[trigger] self.index@[i]).0 != (#[trigger] self.index@[j]).0
        &&& forall|i: int, j: int|
            0 <= i < self.index@.len() && 0 <= j < self.index@.len() && i != j
                ==> (#[trigger] self.index@[i]).1 != (#[trigger] self.index@[j]).1
        &&& forall|i: int|
            0 <= i < self.index@.len() ==> (#[trigger] self.index@[i]).0.x as int % (
            self.chunk_size as int) == 0 && self.index@[i].0.y as int % (self.chunk_size as int)
                == 0
    }

    /// The chunk holding `p` is materialised.
    pub closed spec fn covers(self, p: Point) -> bool {
        exists|i: int|
            0 <= i < self.index@.len() && (#[trigger] self.index@[i]).0.x == Point::origin_spec(
                p.x as int,
                self.chunk_size as int,
            ) && self.index@[i].0.y == Point::origin_spec(p.y as int, self.chunk_size as int)
    }

    /// The index entry for `p`'s chunk (meaningful only when `covers(p)`).
    spec fn entry_for(self, p: Point) -> int {
        choose|i: int|
            0 <= i < self.index@.len() && (#[trigger] self.index@[i]).0.x == Point::origin_spec(
                p.x as int,
                self.chunk_size as int,
            ) && self.index@[i].0.y == Point::origin_spec(p.y as int, self.chunk_size as int)
    }

    /// The tile stored at `p` (meaningful only when `covers(p)`).
    spec fn tile_at(self, p: Point) -> T {
        self.chunks@[self.index@[self.entry_for(p)].1 as int]@[Point::offset_spec(
            p,
            self.chunk_size as int,
        )]
    }
}

impl<T> View for SparseMap<T> {
    type V = Map<Point, T>;

    closed spec fn view(&self) -> Map<Point, T> {
        Map::new(|p: Point| self.covers(p), |p: Point| self.tile_at(p))
    }
}

/// A store's map view is defined exactly on the points of its materialised
/// chunks.
pub proof fn lemma_dom_is_covers<T>(m: SparseMap<T>)
    ensures
        forall|p: Point| #[trigger] m@.dom().contains(p) <==> m.covers(p),
{
}

impl<T: Default> SparseMap<T> {
    /// An empty store for the given chunk size.
    pub fn new(chunk_size: u32) -> (m: SparseMap<T>)
        requires
            1 <= chunk_size <= i32::MAX,
            chunk_size * chunk_size <= usize::MAX,
        ensures
            m.wf(),
            m.chunk_size_spec() == chunk_size,
            m@ == Map::<Point, T>::empty(),
            forall|p: Point| !m.covers(p),
    {
        let m = SparseMap { index: Vec::new(), chunks: Vec::new(), chunk_size };
        proof {
            assert(m@ =~= Map::<Point, T>::empty());
        }
        m
    }

    /// The index slot of the chunk with origin `c`, if that chunk exists.
    fn find_chunk(&self, c: Point) -> (res: Option<usize>)
        ensures
            match res {
                Some(i) => i < self.index@.len() && self.index@[i as int].0 == c,
                None => forall|j: int|
                    0 <= j < self.index@.len() ==> (#[trigger] self.index@[j]).0 != c,
            },
    {
        let mut i: usize = 0;
        while i < self.index.len()
            invariant
                i <= self.index@.len(),
                forall|j: int| 0 <= j < i ==> (#[trigger] self.index@[j]).0 != c,
            decreases self.index@.len() - i,
        {
            if self.index[i].0.x == c.x && self.index[i].0.y == c.y {
                return Some(i);
            }
            i += 1;
        }
        None
    }

    /// The tile at `p`, or `None` if `p`'s chunk was never materialised.
    pub fn get(&self, p: &Point) -> (r: Option<&T>)
        requires
            self.wf(),
            i32::MIN + self.chunk_size_spec() <= p.x,
            i32::MIN + self.chunk_size_spec() <= p.y,
        ensures
            match r {
                Some(t) => self.covers(*p) && *t == self@[*p],
                None => !self.covers(*p),
            },
    {
        let (c, off) = p.chunk_index(self.chunk_size);
        match self.find_chunk(c) {
            Some(i) => {
                proof {
                    assert(self.covers(*p));
                    let j = self.entry_for(*p);
                    assert(self.index@[j] == self.index@[i as int]);
                }
                let slot = self.index[i].1;
                Some(&self.chunks[slot][off])
            },
            None => {
                proof {
                    if self.covers(*p) {
                        let j = self.entry_for(*p);
                        assert(self.index@[j].0 == c);
                    }
                }
                None
            },
        }
    }
}



impl<T> SparseMap<T> {
    /// With distinct origins, an index entry matching `p`'s chunk origin is
    /// the entry `entry_for` picks.
    proof fn lemma_entry_unique(self, p: Point, i: int)
        requires
            self.wf(),
            0 <= i < self.index@.len(),
            self.index@[i].0.x == Point::origin_spec(p.x as int, self.chunk_size as int),
            self.index@[i].0.y == Point::origin_spec(p.y as int, self.chunk_size as int),
        ensures
            self.covers(p),
            self.entry_for(p) == i,
    {
        assert(self.covers(p));
        let j = self.entry_for(p);
        assert(self.index@[j].0 == self.index@[i].0);
    }
}

impl<T: Default> SparseMap<T> {
    /// Write `t` at `p`, materialising `p`'s chunk with default tiles first
    /// if it does not exist yet.
    pub fn set(&mut self, p: &Point, t: T)
        requires
            old(self).wf(),
            i32::MIN + old(self).chunk_size_spec() <= p.x,
            i32::MIN + old(self).chunk_size_spec() <= p.y,
        ensures
            final(self).wf(),
            final(self).chunk_size_spec() == old(self).chunk_size_spec(),
            forall|q: Point|
                final(self).covers(q) <==> (old(self).covers(q) || Point::same_chunk(
                    q,
                    *p,
                    old(self).chunk_size_spec() as int,
                )),
            final(self)@[*p] == t,
            forall|q: Point|
                old(self).covers(q) && q != *p ==> final(self)@[q] == old(self)@[q],
            forall|q: Point|
                !old(self).covers(q) && final(self).covers(q) && q != *p ==> call_ensures(
                    T::default,
                    (),
                    final(self)@[q],
                ),
    {
        let (c, off) = p.chunk_index(self.chunk_size);
        let ghost s = old(self).chunk_size as int;
        proof {
            lemma_offset_bounds(*p, s);
        }
        let slot: usize = match self.find_chunk(c) {
            Some(i) => {
                proof {
                    old(self).lemma_entry_unique(*p, i as int);
                }
                self.index[i].1
            },
            None => {
                let n = Point::max_unrolled_index(self.chunk_size);
                let mut fresh: Vec<T> = Vec::new();
                while fresh.len() < n
                    invariant
                        fresh@.len() <= n,
                        forall|k: int|
                            0 <= k < fresh@.len() ==> call_ensures(
                                T::default,
                                (),
                                #[trigger] fresh@[k],
                            ),
                    decreases n - fresh@.len(),
                {
                    fresh.push(T::default());
                }
                let slot = self.chunks.len();
                self.chunks.push(fresh);
                self.index.push((c, slot));
                proof {
                    self.lemma_entry_unique(*p, self.index@.len() - 1);
                }
                slot
            },
        };
        self.chunks[slot][off] = t;
        proof {
            let m0 = *old(self);
            let m1 = *self;
            assert(m1.index@ == m0.index@ || m1.index@ == m0.index@.push(
                (c, (m0.chunks@.len()) as usize),
            ));
            assert forall|q: Point|
                m1.covers(q) <==> (m0.covers(q) || Point::same_chunk(q, *p, s)) by {
                if m1.covers(q) {
                    let i = choose|i: int|
                        0 <= i < m1.index@.len() && (#[trigger] m1.index@[i]).0.x
                            == Point::origin_spec(q.x as int, s) && m1.index@[i].0.y
                            == Point::origin_spec(q.y as int, s);
                    if i < m0.index@.len() {
                        assert(m0.covers(q));
                    } else {
                        assert(m1.index@[i].0 == c);
                        assert(Point::same_chunk(q, *p, s));
                    }
                }
                if m0.covers(q) {
                    let i = choose|i: int|
                        0 <= i < m0.index@.len() && (#[trigger] m0.index@[i]).0.x
                            == Point::origin_spec(q.x as int, s) && m0.index@[i].0.y
                            == Point::origin_spec(q.y as int, s);
                    assert(m1.index@[i] == m0.index@[i]);
                    assert(m1.covers(q));
                }
                if Point::same_chunk(q, *p, s) {
                    assert(m1.index@[m1.entry_for(*p)].0.x == Point::origin_spec(q.x as int, s));
                    assert(m1.index@[m1.entry_for(*p)].0.y == Point::origin_spec(q.y as int, s));
                    assert(m1.covers(q));
                }
            }
            let e = m1.entry_for(*p);
            assert(m1.index@[e].1 == slot);
            assert(Point::offset_spec(*p, s) == off);
            assert(m1@[*p] == t);
            assert forall|q: Point| m0.covers(q) && q != *p implies m1@[q] == m0@[q] by {
                let i = choose|i: int|
                    0 <= i < m0.index@.len() && (#[trigger] m0.index@[i]).0.x
                        == Point::origin_spec(q.x as int, s) && m0.index@[i].0.y
                        == Point::origin_spec(q.y as int, s);
                m0.lemma_entry_unique(q, i);
                m1.lemma_entry_unique(q, i);
                lemma_offset_bounds(q, s);
                if m1.index@[i].1 == slot {
                    assert(i == e);
                    assert(Point::same_chunk(q, *p, s));
                    if Point::offset_spec(q, s) == off {
                        lemma_offset_injective(q, *p, s);
                    }
                    assert(Point::offset_spec(q, s) != off);
                } else {
                    assert(m1.chunks@[m1.index@[i].1 as int] == m0.chunks@[m0.index@[i].1 as int]);
                }
            }
            assert forall|q: Point|
                !m0.covers(q) && m1.covers(q) && q != *p implies call_ensures(
                T::default,
                (),
                m1@[q],
            ) by {
                assert(Point::same_chunk(q, *p, s));
                let i = m1.entry_for(q);
                m1.lemma_entry_unique(*p, i);
                assert(i == e);
                lemma_offset_bounds(q, s);
                if Point::offset_spec(q, s) == Point::offset_spec(*p, s) {
                    lemma_offset_injective(q, *p, s);
                }
            }
        }
    }
}



impl<T: Default> SparseMap<T> {
    /// A mutable borrow of the tile at `p`, or `None` if `p`'s chunk was
    /// never materialised.
    #[verifier::rlimit(30)]
    #[verifier::spinoff_prover]
    pub fn get_mut(&mut self, p: &Point) -> (r: Option<&mut T>)
        requires
            old(self).wf(),
            i32::MIN + old(self).chunk_size_spec() <= p.x,
            i32::MIN + old(self).chunk_size_spec() <= p.y,
        ensures
            match r {
                Some(t) => {
                    &&& old(self).covers(*p)
                    &&& *t == old(self)@[*p]
                    &&& final(self).wf()
                    &&& final(self).chunk_size_spec() == old(self).chunk_size_spec()
                    &&& forall|q: Point| final(self).covers(q) == old(self).covers(q)
                    &&& final(self)@[*p] == *final(t)
                    &&& forall|q: Point|
                        old(self).covers(q) && q != *p ==> final(self)@[q] == old(self)@[q]
                },
                None => !old(self).covers(*p) && *final(self) == *old(self),
            },
    {
        let (c, off) = p.chunk_index(self.chunk_size);
        let ghost s = old(self).chunk_size as int;
        match self.find_chunk(c) {
            Some(i) => {
                proof {
                    old(self).lemma_entry_unique(*p, i as int);
                    lemma_offset_bounds(*p, s);
                }
                let slot = self.index[i].1;
                let tile = &mut self.chunks[slot][off];
                proof {
                    assert(after_borrow(*self).index@ == old(self).index@);
                    assert(after_borrow(*self).chunk_size_spec() == old(self).chunk_size_spec());
                    assert forall|q: Point|
                        after_borrow(*self).covers(q) == old(self).covers(q) by {}
                    assert forall|q: Point|
                        old(self).covers(q) && q != *p implies after_borrow(*self)@[q] == old(self)@[q] by {
                        let j = choose|j: int|
                            0 <= j < old(self).index@.len() && (#[trigger] old(
                                self,
                            ).index@[j]).0.x == Point::origin_spec(q.x as int, s) && old(
                                self,
                            ).index@[j].0.y == Point::origin_spec(q.y as int, s);
                        old(self).lemma_entry_unique(q, j);
                        after_borrow(*self).lemma_entry_unique(q, j);
                        lemma_offset_bounds(q, s);
                        if after_borrow(*self).index@[j].1 == slot {
                            assert(j == i as int);
                            assert(Point::same_chunk(q, *p, s));
                            if Point::offset_spec(q, s) == off {
                                lemma_offset_injective(q, *p, s);
                            }
                        }
                    }
                    after_borrow(*self).lemma_entry_unique(*p, i as int);
                }
                Some(tile)
            },
            None => {
                proof {
                    if old(self).covers(*p) {
                        let j = old(self).entry_for(*p);
                        assert(old(self).index@[j].0 == c);
                    }
                }
                None
            },
        }
    }

    /// The chunk rectangles intersecting `r` that are not yet
    /// materialised, in the order [`Point::chunks_in_region`] enumerates
    /// them.
    pub fn empty_in_region(&self, r: &Rect) -> (res: Vec<Rect>)
        requires
            self.wf(),
            i32::MIN + self.chunk_size_spec() <= r.lo.x,
            i32::MIN + self.chunk_size_spec() <= r.lo.y,
            r.hi.x + self.chunk_size_spec() <= i32::MAX,
            r.hi.y + self.chunk_size_spec() <= i32::MAX,
        ensures
            forall|c: Rect|
                #[trigger] res@.contains(c) <==> (c.is_chunk(self.chunk_size_spec())
                    && c.overlaps(*r) && !self.covers(c.lo)),
            forall|i: int, j: int| 0 <= i < j < res@.len() ==> res@[i].lo.lex_lt(res@[j].lo),
    {
        let all = Point::chunks_in_region(r, self.chunk_size);
        let ghost s = self.chunk_size as int;
        let mut res: Vec<Rect> = Vec::new();
        let mut i: usize = 0;
        while i < all.len()
            invariant
                self.wf(),
                s == self.chunk_size as int,
                i <= all@.len(),
                forall|c: Rect|
                    #[trigger] all@.contains(c) <==> (c.is_chunk(self.chunk_size_spec())
                        && c.overlaps(*r)),
                forall|k: int, j: int| 0 <= k < j < all@.len() ==> all@[k].lo.lex_lt(all@[j].lo),
                forall|c: Rect|
                    #[trigger] res@.contains(c) <==> (all@.take(i as int).contains(c)
                        && !self.covers(c.lo)),
                forall|k: int, j: int| 0 <= k < j < res@.len() ==> res@[k].lo.lex_lt(res@[j].lo),
            decreases all@.len() - i,
        {
            let c = all[i];
            proof {
                assert(all@.contains(c));
                assert(c.is_chunk(self.chunk_size_spec()));
                assert(Point::origin_spec(c.lo.x as int, s) == c.lo.x);
                assert(Point::origin_spec(c.lo.y as int, s) == c.lo.y);
                assert(all@.take(i + 1 as int) =~= all@.take(i as int).push(c));
            }
            let absent = match self.find_chunk(c.lo) {
                Some(_) => {
                    proof {
                        assert(self.covers(c.lo));
                    }
                    false
                },
                None => {
                    proof {
                        if self.covers(c.lo) {
                            let j = self.entry_for(c.lo);
                            assert(self.index@[j].0 == c.lo);
                        }
                    }
                    true
                },
            };
            if absent {
                proof {
                    assert forall|k: int| 0 <= k < res@.len() implies #[trigger] res@[
                        k
                    ].lo.lex_lt(c.lo) by {
                        let e = res@[k];
                        assert(res@[k] == e);
                        assert(res@.contains(e));
                        assert(all@.take(i as int).contains(e));
                        let j = choose|j: int|
                            0 <= j < all@.take(i as int).len() && all@.take(i as int)[j] == e;
                        assert(all@[j] == e);
                        assert(all@[j].lo.lex_lt(all@[i as int].lo));
                    }
                }
                res.push(c);
            }
            i += 1;
        }
        proof {
            assert(all@.take(all@.len() as int) =~= all@);
        }
        res
    }
}



/// A region-scoped shared view of a store. Lookups outside the region are
/// refused rather than answered.
pub struct ReadGuard<'a, T> {
    owner: &'a SparseMap<T>,
    region: Rect,
}

/// A region-scoped mutable view of a store. Accesses outside the region are
/// refused rather than performed.
pub struct WriteGuard<'a, T> {
    owner: &'a mut SparseMap<T>,
    region: Rect,
}

impl<'a, T> ReadGuard<'a, T> {
    /// The store this guard reads.
    pub closed spec fn store(self) -> SparseMap<T> {
        *self.owner
    }

    /// The rectangle this guard may touch.
    pub closed spec fn region_spec(self) -> Rect {
        self.region
    }

    /// A usable guard: sound store, region away from the coordinate limits.
    pub closed spec fn wf(self) -> bool {
        &&& self.owner.wf()
        &&& i32::MIN + self.owner.chunk_size_spec() <= self.region.lo.x
        &&& i32::MIN + self.owner.chunk_size_spec() <= self.region.lo.y
    }
}

impl<'a, T> WriteGuard<'a, T> {
    /// The store this guard covers.
    pub closed spec fn store(self) -> SparseMap<T> {
        *self.owner
    }

    /// The rectangle this guard may touch.
    pub closed spec fn region_spec(self) -> Rect {
        self.region
    }

    /// A usable guard: sound store, region away from the coordinate limits.
    pub closed spec fn wf(self) -> bool {
        &&& self.owner.wf()
        &&& i32::MIN + self.owner.chunk_size_spec() <= self.region.lo.x
        &&& i32::MIN + self.owner.chunk_size_spec() <= self.region.lo.y
    }

    /// The chunk size of the underlying store.
    pub closed spec fn chunk_size_of(self) -> u32 {
        self.owner.chunk_size_spec()
    }
}

impl<'a, T: Default> ReadGuard<'a, T> {
    /// The tile at `p`: an out-of-region error if the guard does not cover
    /// `p`, otherwise `None` exactly when `p`'s chunk was never
    /// materialised.
    pub fn get(&self, p: &Point) -> (r: Result<Option<&T>, ()>)
        requires
            self.wf(),
        ensures
            match r {
                Err(e) => !self.region_spec().contains_point(*p),
                Ok(o) => self.region_spec().contains_point(*p) && (match o {
                    Some(t) => self.store().covers(*p) && *t == self.store()@[*p],
                    None => !self.store().covers(*p),
                }),
            },
    {
        if p.contained(&self.region) {
            Ok(self.owner.get(p))
        } else {
            Err(())
        }
    }
}

impl<'a, T: Default> WriteGuard<'a, T> {
    /// The tile at `p`, as [`ReadGuard::get`].
    pub fn get(&self, p: &Point) -> (r: Result<Option<&T>, ()>)
        requires
            self.wf(),
        ensures
            match r {
                Err(e) => !self.region_spec().contains_point(*p),
                Ok(o) => self.region_spec().contains_point(*p) && (match o {
                    Some(t) => self.store().covers(*p) && *t == self.store()@[*p],
                    None => !self.store().covers(*p),
                }),
            },
    {
        if p.contained(&self.region) {
            Ok(self.owner.get(p))
        } else {
            Err(())
        }
    }

    /// A mutable borrow of the tile at `p`, refused outside the guard's
    /// region, `Ok(None)` when `p`'s chunk was never materialised.
    pub fn get_mut(&mut self, p: &Point) -> (r: Result<Option<&mut T>, ()>)
        requires
            old(self).wf(),
        ensures
            match r {
                Err(e) => !old(self).region_spec().contains_point(*p) && final(self).store()
                    == old(self).store() && final(self).region_spec() == old(self).region_spec(),
                Ok(o) => old(self).region_spec().contains_point(*p) && (match o {
                    Some(t) => {
                        &&& old(self).store().covers(*p)
                        &&& *t == old(self).store()@[*p]
                        &&& final(self).wf()
                        &&& final(self).region_spec() == old(self).region_spec()
                        &&& final(self).chunk_size_of() == old(self).chunk_size_of()
                        &&& forall|q: Point|
                            final(self).store().covers(q) == old(self).store().covers(q)
                        &&& final(self).store()@[*p] == *final(t)
                        &&& forall|q: Point|
                            old(self).store().covers(q) && q != *p ==> final(self).store()@[q]
                                == old(self).store()@[q]
                    },
                    None => !old(self).store().covers(*p) && final(self).store() == old(
                        self,
                    ).store() && final(self).region_spec() == old(self).region_spec(),
                }),
            },
    {
        if p.contained(&self.region) {
            Ok(self.owner.get_mut(p))
        } else {
            Err(())
        }
    }

    /// Every point of the guard's region in lexicographic order: the
    /// iteration order for visiting the region's tiles through
    /// [`WriteGuard::get`], [`WriteGuard::get_mut`] and [`WriteGuard::set`].
    pub fn enumerate(&self) -> (res: Vec<Point>)
        ensures
            forall|p: Point| res@.contains(p) <==> self.region_spec().contains_point(p),
            forall|i: int, j: int| 0 <= i < j < res@.len() ==> res@[i].lex_lt(res@[j]),
    {
        Point::points_in_region(&self.region)
    }

    /// Write `t` at `p`, materialising `p`'s chunk if needed; refused
    /// outside the guard's region.
    pub fn set(&mut self, p: &Point, t: T) -> (r: Result<(), ()>)
        requires
            old(self).wf(),
        ensures
            match r {
                Err(e) => !old(self).region_spec().contains_point(*p) && final(self).store()
                    == old(self).store() && final(self).region_spec() == old(self).region_spec(),
                Ok(u) => {
                    &&& old(self).region_spec().contains_point(*p)
                    &&& final(self).wf()
                    &&& final(self).region_spec() == old(self).region_spec()
                    &&& final(self).chunk_size_of() == old(self).chunk_size_of()
                    &&& forall|q: Point|
                        final(self).store().covers(q) <==> (old(self).store().covers(q)
                            || Point::same_chunk(q, *p, old(self).chunk_size_of() as int))
                    &&& final(self).store()@[*p] == t
                    &&& forall|q: Point|
                        old(self).store().covers(q) && q != *p ==> final(self).store()@[q] == old(
                            self,
                        ).store()@[q]
                    &&& forall|q: Point|
                        !old(self).store().covers(q) && final(self).store().covers(q) && q != *p
                            ==> call_ensures(T::default, (), final(self).store()@[q])
                },
            },
    {
        if p.contained(&self.region) {
            self.owner.set(p, t);
            Ok(())
        } else {
            Err(())
        }
    }
}

impl<T: Default> SparseMap<T> {
    /// A shared, region-scoped view of this store.
    pub fn region(&self, r: &Rect) -> (g: ReadGuard<'_, T>)
        requires
            self.wf(),
            i32::MIN + self.chunk_size_spec() <= r.lo.x,
            i32::MIN + self.chunk_size_spec() <= r.lo.y,
        ensures
            g.wf(),
            g.store() == *self,
            g.region_spec() == *r,
    {
        ReadGuard { owner: self, region: *r }
    }

    /// A mutable, region-scoped view of this store.
    pub fn region_mut(&mut self, r: &Rect) -> (g: WriteGuard<'_, T>)
        requires
            old(self).wf(),
            i32::MIN + old(self).chunk_size_spec() <= r.lo.x,
            i32::MIN + old(self).chunk_size_spec() <= r.lo.y,
        ensures
            g.wf(),
            g.store() == *old(self),
            g.region_spec() == *r,
    {
        WriteGuard { owner: self, region: *r }
    }
}



impl<T> SparseMap<T> {
    /// The chunk size this store was created with.
    pub fn chunk_size(&self) -> (s: u32)
        ensures
            s == self.chunk_size_spec(),
    {
        self.chunk_size
    }
}



/// The size facts a well-formed store guarantees, for use by callers that
/// do arithmetic on the chunk size.
pub proof fn lemma_wf_size_bounds<T>(m: SparseMap<T>)
    requires
        m.wf(),
    ensures
        1 <= m.chunk_size_spec() <= i32::MAX,
        m.chunk_size_spec() * m.chunk_size_spec() <= usize::MAX,
{
}


} // verus!
