//! Tile traits consumed by generators, and the connectivity generator that
//! records orthogonal adjacency between passable tiles.

use crate::generator::{generation_pre, Generator};
use crate::point::{Point, Rect};
use crate::sparse::SparseMap;
use vstd::prelude::*;

verus! {

/// A tile with a passability bit.
pub trait Passable {
    /// The passability bit, as specifications see it.
    spec fn passable_spec(&self) -> bool;

    /// Whether the tile can be walked on.
    fn is_passable(&self) -> (b: bool)
        ensures
            b == self.passable_spec(),
    ;

    /// Set the passability bit, leaving the rest of the tile alone.
    fn set_passable(&mut self, passable: bool)
        ensures
            final(self).passable_spec() == passable,
    ;
}

/// A passable tile that also records the neighbouring points it connects
/// to.
pub trait Connected: Passable {
    /// The recorded edge set, as specifications see it.
    spec fn edges_spec(&self) -> Set<Point>;

    /// Whether an edge to `q` is recorded.
    fn has_edge(&self, q: &Point) -> (b: bool)
        ensures
            b == self.edges_spec().contains(*q),
    ;

    /// Record an edge to `q`; recording one twice is harmless. The
    /// passability bit is not touched.
    fn add_edge(&mut self, q: Point)
        ensures
            final(self).edges_spec() == old(self).edges_spec().insert(q),
            final(self).passable_spec() == old(self).passable_spec(),
    ;
}

/// `p` and `q` are orthogonal neighbours.
pub open spec fn adjacent(p: Point, q: Point) -> bool {
    (p.x == q.x && (p.y - q.y == 1 || q.y - p.y == 1)) || (p.y == q.y && (p.x - q.x == 1 || q.x
        - p.x == 1))
}

/// A generator that walks every core tile and, for each passable tile,
/// records an edge to and from each passable orthogonal neighbour. The
/// back-edge into a neighbour that lies outside the core is an intentional
/// write into the umbra; a neighbour whose chunk was never materialised is
/// treated as impassable and skipped.
pub struct Connectivity;

/// The pairs one [`Connectivity`] run links: orthogonal neighbours, both
/// passable and materialised, at least one of the two inside the core.
pub open spec fn linked<T: Connected>(pre: SparseMap<T>, core: Rect, t: Point, u: Point) -> bool {
    &&& adjacent(t, u)
    &&& pre.covers(t)
    &&& pre.covers(u)
    &&& pre@[t].passable_spec()
    &&& pre@[u].passable_spec()
    &&& core.contains_point(t) || core.contains_point(u)
}

/// What one [`Connectivity`] run changes: no tile appears or disappears, no
/// passability bit changes, no tile outside the umbra changes at all, and
/// the recorded edges of every tile grow by exactly its [`linked`]
/// partners.
pub open spec fn connectivity_step<T: Connected>(
    pre: SparseMap<T>,
    post: SparseMap<T>,
    core: Rect,
    umbra: Rect,
) -> bool {
    &&& post.wf()
    &&& post.chunk_size_spec() == pre.chunk_size_spec()
    &&& forall|q: Point| post.covers(q) == pre.covers(q)
    &&& forall|q: Point| pre.covers(q) && !umbra.contains_point(q) ==> post@[q] == pre@[q]
    &&& forall|q: Point| pre.covers(q) ==> (#[trigger] post@[q]).passable_spec() == pre@[
        q
    ].passable_spec()
    &&& forall|t: Point|
        pre.covers(t) ==> (#[trigger] post@[t]).edges_spec() == pre@[t].edges_spec().union(
            Set::new(|u: Point| linked(pre, core, t, u)),
        )
}

/// Over a fresh chunk, whose tiles start with no recorded edges, the edges
/// Connectivity records are exactly symmetric orthogonal adjacency between
/// passable tiles: an edge from `t` to `u` is recorded exactly when one
/// from `u` to `t` is, exactly when the two are passable orthogonal
/// neighbours with at least one of them in the core.
pub proof fn lemma_connectivity_symmetric<T: Connected>(
    pre: SparseMap<T>,
    post: SparseMap<T>,
    core: Rect,
    umbra: Rect,
)
    requires
        connectivity_step(pre, post, core, umbra),
        forall|t: Point|
            pre.covers(t) ==> (#[trigger] pre@[t]).edges_spec() == Set::<Point>::empty(),
    ensures
        forall|t: Point, u: Point|
            pre.covers(t) && pre.covers(u) ==> (post@[t].edges_spec().contains(u)
                <==> post@[u].edges_spec().contains(t)),
        forall|t: Point, u: Point|
            pre.covers(t) && pre.covers(u) ==> (post@[t].edges_spec().contains(u) <==> (adjacent(
                t,
                u,
            ) && post@[t].passable_spec() && post@[u].passable_spec() && (core.contains_point(t)
                || core.contains_point(u)))),
{
    assert forall|t: Point, u: Point| pre.covers(t) && pre.covers(u) implies (post@[
        t
    ].edges_spec().contains(u) <==> linked(pre, core, t, u)) by {
        assert(post@[t].edges_spec() == pre@[t].edges_spec().union(
            Set::new(|v: Point| linked(pre, core, t, v)),
        ));
    }
    assert forall|t: Point, u: Point| pre.covers(t) && pre.covers(u) implies (linked(
        pre,
        core,
        t,
        u,
    ) == linked(pre, core, u, t)) by {}
}

impl Connectivity {
    /// Record adjacency edges for every passable core tile, as
    /// [`connectivity_step`] describes.
    pub fn connect_region<T: Connected + Default>(
        store: &mut SparseMap<T>,
        core_region: &Rect,
        umbra: &Rect,
    )
        requires
            generation_pre(*old(store), *core_region, *umbra),
        ensures
            connectivity_step(*old(store), *final(store), *core_region, *umbra),
    {
        let pts = Point::points_in_region(core_region);
        let ghost core = *core_region;
        let mut i: usize = 0;
        proof {
            assert forall|t: Point| old(store).covers(t) implies (#[trigger] store@[
                t
            ]).edges_spec() == old(store)@[t].edges_spec().union(
                Set::new(
                    |u: Point|
                        linked(*old(store), core, t, u) && (pts@.take(0).contains(t)
                            || pts@.take(0).contains(u)),
                ),
            ) by {
                assert(store@[t].edges_spec() =~= old(store)@[t].edges_spec().union(
                    Set::new(
                        |u: Point|
                            linked(*old(store), core, t, u) && (pts@.take(0).contains(t)
                                || pts@.take(0).contains(u)),
                    ),
                ));
            }
        }
        while i < pts.len()
            invariant
                generation_pre(*old(store), *core_region, *umbra),
                core == *core_region,
                forall|k: int| 0 <= k < pts@.len() ==> core.contains_point(#[trigger] pts@[k]),
                forall|q: Point| #[trigger] pts@.contains(q) <==> core.contains_point(q),
                i <= pts@.len(),
                store.wf(),
                store.chunk_size_spec() == old(store).chunk_size_spec(),
                forall|q: Point| old(store).covers(q) == store.covers(q),
                forall|q: Point|
                    old(store).covers(q) && !umbra.contains_point(q) ==> store@[q] == old(
                        store,
                    )@[q],
                forall|q: Point|
                    old(store).covers(q) ==> (#[trigger] store@[q]).passable_spec() == old(
                        store,
                    )@[q].passable_spec(),
                forall|t: Point|
                    old(store).covers(t) ==> (#[trigger] store@[t]).edges_spec() == old(
                        store,
                    )@[t].edges_spec().union(
                        Set::new(
                            |u: Point|
                                linked(*old(store), core, t, u) && (pts@.take(i as int).contains(t)
                                    || pts@.take(i as int).contains(u)),
                        ),
                    ),
            decreases pts@.len() - i,
        {
            let p = pts[i];
            proof {
                assert(pts@[i as int] == p);
                assert(pts@.contains(p));
                assert(core.contains_point(p));
                assert(pts@.take(i + 1 as int) =~= pts@.take(i as int).push(p));
            }
            let passable_here = match store.get(&p) {
                Some(t) => t.is_passable(),
                None => false,
            };
            if passable_here {
                let nbs = p.neighboors();
                proof {
                    assert forall|u: Point| adjacent(p, u) implies #[trigger] nbs@.contains(
                        u,
                    ) by {
                        if u.x == p.x - 1 && u.y == p.y {
                            assert(nbs@[0] == u);
                        } else if u.x == p.x + 1 && u.y == p.y {
                            assert(nbs@[1] == u);
                        } else if u.x == p.x && u.y == p.y - 1 {
                            assert(nbs@[2] == u);
                        } else {
                            assert(nbs@[3] == u);
                        }
                    }
                }
                let mut j: usize = 0;
                while j < nbs.len()
                    invariant
                        generation_pre(*old(store), *core_region, *umbra),
                        core == *core_region,
                        core.contains_point(p),
                        nbs@.len() == 4,
                        forall|k: int| 0 <= k < 4 ==> adjacent(p, #[trigger] nbs@[k]),
                        forall|k: int| 0 <= k < 4 ==> umbra.contains_point(#[trigger] nbs@[k]),
                        forall|u: Point| adjacent(p, u) ==> #[trigger] nbs@.contains(u),
                        j <= nbs@.len(),
                        store.wf(),
                        store.chunk_size_spec() == old(store).chunk_size_spec(),
                        store.covers(p),
                        store@[p].passable_spec(),
                        old(store)@[p].passable_spec(),
                        forall|q: Point| old(store).covers(q) == store.covers(q),
                        forall|q: Point|
                            old(store).covers(q) && !umbra.contains_point(q) ==> store@[q] == old(
                                store,
                            )@[q],
                        forall|q: Point|
                            old(store).covers(q) ==> (#[trigger] store@[q]).passable_spec() == old(
                                store,
                            )@[q].passable_spec(),
                        forall|t: Point|
                            old(store).covers(t) ==> (#[trigger] store@[t]).edges_spec() == old(
                                store,
                            )@[t].edges_spec().union(
                                Set::new(
                                    |u: Point|
                                        linked(*old(store), core, t, u) && (pts@.take(
                                            i as int,
                                        ).contains(t) || pts@.take(i as int).contains(u) || (t == p
                                            && nbs@.take(j as int).contains(u)) || (u == p
                                            && nbs@.take(j as int).contains(t))),
                                ),
                            ),
                    decreases nbs@.len() - j,
                {
                    let q = nbs[j];
                    proof {
                        assert(nbs@[j as int] == q);
                        assert(nbs@.take(j + 1 as int) =~= nbs@.take(j as int).push(q));
                    }
                    let passable_there = match store.get(&q) {
                        Some(t) => t.is_passable(),
                        None => false,
                    };
                    if passable_there {
                        let ghost before = *store;
                        match store.get_mut(&p) {
                            Some(t) => t.add_edge(q),
                            None => (),
                        }
                        let ghost mid = *store;
                        match store.get_mut(&q) {
                            Some(t) => t.add_edge(p),
                            None => (),
                        }
                        proof {
                            assert(p != q);
                            assert(linked(*old(store), core, p, q));
                            assert(linked(*old(store), core, q, p));
                            assert(store@[p].edges_spec() == before@[p].edges_spec().insert(q));
                            assert(store@[q].edges_spec() == before@[q].edges_spec().insert(p));
                            assert forall|t: Point| old(store).covers(t) implies (
                            #[trigger] store@[t]).edges_spec() == old(store)@[
                                t
                            ].edges_spec().union(
                                Set::new(
                                    |u: Point|
                                        linked(*old(store), core, t, u) && (pts@.take(
                                            i as int,
                                        ).contains(t) || pts@.take(i as int).contains(u) || (t == p
                                            && nbs@.take(j + 1 as int).contains(u)) || (u == p
                                            && nbs@.take(j + 1 as int).contains(t))),
                                ),
                            ) by {
                                if t != p && t != q {
                                    assert(store@[t] == before@[t]);
                                }
                                assert forall|u: Point|
                                    #[trigger] store@[t].edges_spec().contains(u) <==> (old(
                                        store,
                                    )@[t].edges_spec().contains(u) || (linked(
                                        *old(store),
                                        core,
                                        t,
                                        u,
                                    ) && (pts@.take(i as int).contains(t) || pts@.take(
                                        i as int,
                                    ).contains(u) || (t == p && nbs@.take(j + 1 as int).contains(
                                        u,
                                    )) || (u == p && nbs@.take(j + 1 as int).contains(t))))) by {
                                    assert(before@[t].edges_spec() == old(store)@[
                                        t
                                    ].edges_spec().union(
                                        Set::new(
                                            |v: Point|
                                                linked(*old(store), core, t, v) && (pts@.take(
                                                    i as int,
                                                ).contains(t) || pts@.take(i as int).contains(v)
                                                    || (t == p && nbs@.take(j as int).contains(v))
                                                    || (v == p && nbs@.take(j as int).contains(
                                                    t,
                                                ))),
                                        ),
                                    ));
                                    if (t == p && u == q) || (t == q && u == p) {
                                        assert(nbs@.take(j + 1 as int)[j as int] == q);
                                        assert(nbs@.take(j + 1 as int).contains(q));
                                    }
                                }
                                assert(store@[t].edges_spec() =~= old(store)@[
                                    t
                                ].edges_spec().union(
                                    Set::new(
                                        |u: Point|
                                            linked(*old(store), core, t, u) && (pts@.take(
                                                i as int,
                                            ).contains(t) || pts@.take(i as int).contains(u) || (t
                                                == p && nbs@.take(j + 1 as int).contains(u)) || (u
                                                == p && nbs@.take(j + 1 as int).contains(t))),
                                    ),
                                ));
                            }
                        }
                    } else {
                        proof {
                            assert forall|t: Point| old(store).covers(t) implies (
                            #[trigger] store@[t]).edges_spec() == old(store)@[
                                t
                            ].edges_spec().union(
                                Set::new(
                                    |u: Point|
                                        linked(*old(store), core, t, u) && (pts@.take(
                                            i as int,
                                        ).contains(t) || pts@.take(i as int).contains(u) || (t == p
                                            && nbs@.take(j + 1 as int).contains(u)) || (u == p
                                            && nbs@.take(j + 1 as int).contains(t))),
                                ),
                            ) by {
                                assert(store@[t].edges_spec() =~= old(store)@[
                                    t
                                ].edges_spec().union(
                                    Set::new(
                                        |u: Point|
                                            linked(*old(store), core, t, u) && (pts@.take(
                                                i as int,
                                            ).contains(t) || pts@.take(i as int).contains(u) || (t
                                                == p && nbs@.take(j + 1 as int).contains(u)) || (u
                                                == p && nbs@.take(j + 1 as int).contains(t))),
                                    ),
                                ));
                            }
                        }
                    }
                    j += 1;
                }
                proof {
                    assert(nbs@.take(4) =~= nbs@);
                    assert forall|t: Point| old(store).covers(t) implies (#[trigger] store@[
                        t
                    ]).edges_spec() == old(store)@[t].edges_spec().union(
                        Set::new(
                            |u: Point|
                                linked(*old(store), core, t, u) && (pts@.take(
                                    i + 1 as int,
                                ).contains(t) || pts@.take(i + 1 as int).contains(u)),
                        ),
                    ) by {
                        assert forall|u: Point|
                            #[trigger] store@[t].edges_spec().contains(u) <==> (old(store)@[
                                t
                            ].edges_spec().contains(u) || (linked(*old(store), core, t, u) && (
                            pts@.take(i + 1 as int).contains(t) || pts@.take(
                                i + 1 as int,
                            ).contains(u)))) by {
                            assert(store@[t].edges_spec() == old(store)@[t].edges_spec().union(
                                Set::new(
                                    |v: Point|
                                        linked(*old(store), core, t, v) && (pts@.take(
                                            i as int,
                                        ).contains(t) || pts@.take(i as int).contains(v) || (t == p
                                            && nbs@.take(j as int).contains(v)) || (v == p
                                            && nbs@.take(j as int).contains(t))),
                                ),
                            ));
                            assert(nbs@.take(j as int) == nbs@);
                            assert(pts@.take(i + 1 as int)[i as int] == p);
                            assert(pts@.take(i + 1 as int).contains(p));
                            assert(forall|x: Point|
                                pts@.take(i as int).contains(x) ==> #[trigger] pts@.take(
                                    i + 1 as int,
                                ).contains(x));
                            if linked(*old(store), core, t, u) {
                                if t == p {
                                    assert(adjacent(p, u));
                                    assert(nbs@.contains(u));
                                }
                                if u == p {
                                    assert(adjacent(t, p));
                                    assert(adjacent(p, t));
                                    assert(nbs@.contains(t));
                                }
                                if pts@.take(i + 1 as int).contains(t) && !pts@.take(
                                    i as int,
                                ).contains(t) {
                                    assert(t == p);
                                }
                                if pts@.take(i + 1 as int).contains(u) && !pts@.take(
                                    i as int,
                                ).contains(u) {
                                    assert(u == p);
                                }
                            }
                        }
                        assert(store@[t].edges_spec() =~= old(store)@[t].edges_spec().union(
                            Set::new(
                                |u: Point|
                                    linked(*old(store), core, t, u) && (pts@.take(
                                        i + 1 as int,
                                    ).contains(t) || pts@.take(i + 1 as int).contains(u)),
                            ),
                        ));
                    }
                }
            } else {
                proof {
                    assert(!old(store)@[p].passable_spec());
                    assert forall|t: Point| old(store).covers(t) implies (#[trigger] store@[
                        t
                    ]).edges_spec() == old(store)@[t].edges_spec().union(
                        Set::new(
                            |u: Point|
                                linked(*old(store), core, t, u) && (pts@.take(
                                    i + 1 as int,
                                ).contains(t) || pts@.take(i + 1 as int).contains(u)),
                        ),
                    ) by {
                        assert(store@[t].edges_spec() =~= old(store)@[t].edges_spec().union(
                            Set::new(
                                |u: Point|
                                    linked(*old(store), core, t, u) && (pts@.take(
                                        i + 1 as int,
                                    ).contains(t) || pts@.take(i + 1 as int).contains(u)),
                            ),
                        ));
                    }
                }
            }
            i += 1;
        }
        proof {
            assert(pts@.take(pts@.len() as int) =~= pts@);
            assert forall|t: Point| old(store).covers(t) implies (#[trigger] store@[
                t
            ]).edges_spec() == old(store)@[t].edges_spec().union(
                Set::new(|u: Point| linked(*old(store), core, t, u)),
            ) by {
                assert(store@[t].edges_spec() =~= old(store)@[t].edges_spec().union(
                    Set::new(|u: Point| linked(*old(store), core, t, u)),
                ));
            }
        }
    }
}

impl<T: Connected + Default> Generator<T> for Connectivity {
    fn generate(&mut self, store: &mut SparseMap<T>, core_region: &Rect, umbra: &Rect) {
        Connectivity::connect_region(store, core_region, umbra);
    }
}


/// A reference tile: a passability bit and a recorded set of connected
/// neighbour points.
#[derive(Debug, Clone)]
pub struct GridTile {
    pub passable: bool,
    pub edges: Vec<Point>,
}

impl Passable for GridTile {
    open spec fn passable_spec(&self) -> bool {
        self.passable
    }

    fn is_passable(&self) -> (b: bool) {
        self.passable
    }

    fn set_passable(&mut self, passable: bool) {
        self.passable = passable;
    }
}

impl Connected for GridTile {
    open spec fn edges_spec(&self) -> Set<Point> {
        self.edges@.to_set()
    }

    fn has_edge(&self, q: &Point) -> (b: bool) {
        let mut i: usize = 0;
        while i < self.edges.len()
            invariant
                i <= self.edges@.len(),
                forall|j: int| 0 <= j < i ==> self.edges@[j] != *q,
            decreases self.edges@.len() - i,
        {
            let e = self.edges[i];
            if e.x == q.x && e.y == q.y {
                proof {
                    assert(self.edges@[i as int] == *q);
                    assert(self.edges@.contains(*q));
                }
                return true;
            }
            i += 1;
        }
        proof {
            if self.edges@.to_set().contains(*q) {
                let j = choose|j: int| 0 <= j < self.edges@.len() && self.edges@[j] == *q;
                assert(false);
            }
        }
        false
    }

    fn add_edge(&mut self, q: Point) {
        let already = self.has_edge(&q);
        if !already {
            self.edges.push(q);
            proof {
                assert(self.edges@.drop_last() == old(self).edges@);
                assert(self.edges@.last() == q);
                assert forall|x: Point| #[trigger] self.edges_spec().contains(x) implies old(
                    self,
                ).edges_spec().insert(q).contains(x) by {
                    let j = choose|j: int| 0 <= j < self.edges@.len() && self.edges@[j] == x;
                    if j < self.edges@.len() - 1 {
                        assert(old(self).edges@[j] == x);
                    }
                }
                assert forall|x: Point|
                    old(self).edges_spec().insert(q).contains(x) implies #[trigger] self.edges_spec().contains(
                    x,
                ) by {
                    if x == q {
                        assert(self.edges@[self.edges@.len() - 1] == x);
                    } else {
                        let j = choose|j: int|
                            0 <= j < old(self).edges@.len() && old(self).edges@[j] == x;
                        assert(self.edges@[j] == x);
                    }
                }
                assert(self.edges_spec() =~= old(self).edges_spec().insert(q));
            }
        } else {
            proof {
                assert(self.edges_spec() =~= old(self).edges_spec().insert(q));
            }
        }
    }
}

impl GridTile {
    /// A tile with the given passability and no edges.
    pub fn with_passability(passable: bool) -> (t: GridTile)
        ensures
            t.passable_spec() == passable,
            t.edges_spec() == Set::<Point>::empty(),
    {
        let t = GridTile { passable, edges: Vec::new() };
        proof {
            assert(t.edges_spec() =~= Set::<Point>::empty());
        }
        t
    }
}

impl Default for GridTile {
    /// An impassable tile with no edges.
    fn default() -> (t: GridTile)
        ensures
            !t.passable_spec(),
            t.edges_spec() == Set::<Point>::empty(),
    {
        GridTile::with_passability(false)
    }
}


} // verus!
