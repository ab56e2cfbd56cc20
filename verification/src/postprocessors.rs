//! Post-processing generators that reshape freshly generated terrain.
//!
//! [`AllConnected`] wraps an inner generator and afterwards carves corridors
//! until the passable tiles of the new chunk form a single connected
//! component, biasing the carving toward the passable terrain of
//! already-generated neighbouring chunks.

use crate::analysis::{adjacent, Passable};
use crate::generator::{generation_pre, Generator};
use crate::point::{Point, Rect};
use crate::sparse::SparseMap;
use vstd::prelude::*;
use vstd::arithmetic::div_mod::{
    lemma_fundamental_div_mod, lemma_fundamental_div_mod_converse, lemma_mod_bound,
};

verus! {

/// `b` can be reached from `a` in at most `n` orthogonal steps through
/// passable, materialised tiles of `core`.
pub open spec fn reach<T: Passable>(
    m: SparseMap<T>,
    core: Rect,
    a: Point,
    b: Point,
    n: nat,
) -> bool
    decreases n,
{
    &&& core.contains_point(a) && m.covers(a) && m@[a].passable_spec()
    &&& core.contains_point(b) && m.covers(b) && m@[b].passable_spec()
    &&& (a == b || (n > 0 && exists|c: Point|
        #[trigger] adjacent(a, c) && reach(m, core, c, b, (n - 1) as nat)))
}

/// The passable tiles of `core` form at most one orthogonally connected
/// component: any two are mutually reachable through passable core tiles.
pub open spec fn connected_core<T: Passable>(m: SparseMap<T>, core: Rect) -> bool {
    forall|a: Point, b: Point|
        core.contains_point(a) && core.contains_point(b) && m.covers(a) && m.covers(b) && (
        #[trigger] m@[a].passable_spec()) && (#[trigger] m@[b].passable_spec())
            ==> exists|n: nat| reach(m, core, a, b, n)
}

/// A reachable path extends by one step at its far end.
proof fn lemma_reach_extend<T: Passable>(
    m: SparseMap<T>,
    core: Rect,
    a: Point,
    b: Point,
    c: Point,
    n: nat,
)
    requires
        reach(m, core, a, b, n),
        adjacent(b, c),
        core.contains_point(c),
        m.covers(c),
        m@[c].passable_spec(),
    ensures
        reach(m, core, a, c, (n + 1) as nat),
    decreases n,
{
    if a == b {
        assert(adjacent(a, c) && reach(m, core, c, c, n));
    } else {
        let mid = choose|mid: Point|
            #[trigger] adjacent(a, mid) && reach(m, core, mid, b, (n - 1) as nat);
        lemma_reach_extend(m, core, mid, b, c, (n - 1) as nat);
        assert(adjacent(a, mid) && reach(m, core, mid, c, n));
    }
}

/// Reachability composes.
proof fn lemma_reach_trans<T: Passable>(
    m: SparseMap<T>,
    core: Rect,
    a: Point,
    b: Point,
    c: Point,
    n1: nat,
    n2: nat,
)
    requires
        reach(m, core, a, b, n1),
        reach(m, core, b, c, n2),
    ensures
        reach(m, core, a, c, (n1 + n2) as nat),
    decreases n1,
{
    if a == b {
        lemma_reach_widen(m, core, b, c, n2, (n1 + n2) as nat);
    } else {
        let mid = choose|mid: Point|
            #[trigger] adjacent(a, mid) && reach(m, core, mid, b, (n1 - 1) as nat);
        lemma_reach_trans(m, core, mid, b, c, (n1 - 1) as nat, n2);
        assert(adjacent(a, mid) && reach(m, core, mid, c, (n1 - 1 + n2) as nat));
    }
}

/// A bound on the path length can always be raised.
proof fn lemma_reach_widen<T: Passable>(
    m: SparseMap<T>,
    core: Rect,
    a: Point,
    b: Point,
    n1: nat,
    n2: nat,
)
    requires
        reach(m, core, a, b, n1),
        n1 <= n2,
    ensures
        reach(m, core, a, b, n2),
    decreases n1,
{
    if a != b {
        let mid = choose|mid: Point|
            #[trigger] adjacent(a, mid) && reach(m, core, mid, b, (n1 - 1) as nat);
        lemma_reach_widen(m, core, mid, b, (n1 - 1) as nat, (n2 - 1) as nat);
        assert(adjacent(a, mid) && reach(m, core, mid, b, (n2 - 1) as nat));
    }
}

/// Reachability is symmetric: orthogonal steps reverse.
proof fn lemma_reach_sym<T: Passable>(m: SparseMap<T>, core: Rect, a: Point, b: Point, n: nat)
    requires
        reach(m, core, a, b, n),
    ensures
        reach(m, core, b, a, n),
    decreases n,
{
    if a != b {
        let mid = choose|mid: Point|
            #[trigger] adjacent(a, mid) && reach(m, core, mid, b, (n - 1) as nat);
        lemma_reach_sym(m, core, mid, b, (n - 1) as nat);
        assert(adjacent(mid, a));
        lemma_reach_extend(m, core, b, mid, a, (n - 1) as nat);
    }
}

/// Reachability survives any store change that keeps passable tiles
/// materialised and passable.
proof fn lemma_reach_mono<T: Passable>(
    m1: SparseMap<T>,
    m2: SparseMap<T>,
    core: Rect,
    a: Point,
    b: Point,
    n: nat,
)
    requires
        reach(m1, core, a, b, n),
        forall|q: Point|
            m1.covers(q) && (#[trigger] m1@[q].passable_spec()) ==> m2.covers(q) && m2@[
                q
            ].passable_spec(),
    ensures
        reach(m2, core, a, b, n),
    decreases n,
{
    if a != b {
        let mid = choose|mid: Point|
            #[trigger] adjacent(a, mid) && reach(m1, core, mid, b, (n - 1) as nat);
        lemma_reach_mono(m1, m2, core, mid, b, (n - 1) as nat);
        assert(adjacent(a, mid) && reach(m2, core, mid, b, (n - 1) as nat));
    }
}

/// The row-major index of `q` inside chunk `core`.
pub open spec fn row_idx(core: Rect, s: int, q: Point) -> int {
    (q.y - core.lo.y) * s + (q.x - core.lo.x)
}

/// The row-major index and the point it names determine each other.
proof fn lemma_row_idx_roundtrip(core: Rect, s: int, q: Point)
    requires
        1 <= s,
        core.hi.x == core.lo.x + s,
        core.hi.y == core.lo.y + s,
        core.contains_point(q),
    ensures
        0 <= row_idx(core, s, q) < s * s,
        row_idx(core, s, q) % s == q.x - core.lo.x,
        row_idx(core, s, q) / s == q.y - core.lo.y,
{
    let dx = q.x - core.lo.x;
    let dy = q.y - core.lo.y;
    assert(0 <= dy * s + dx && dy * s + dx < s * s) by (nonlinear_arith)
        requires
            0 <= dx < s,
            0 <= dy < s,
            1 <= s,
    ;
    lemma_fundamental_div_mod_converse(dy * s + dx, s, dy, dx);
}

/// The unassigned component label.
const FREE: usize = usize::MAX;

/// How many labels in `s` are still unassigned.
spec fn free_count(s: Seq<usize>) -> int
    decreases s.len(),
{
    if s.len() == 0 {
        0
    } else {
        free_count(s.drop_last()) + if s.last() == FREE {
            1int
        } else {
            0int
        }
    }
}

proof fn lemma_free_count_nonneg(s: Seq<usize>)
    ensures
        free_count(s) >= 0,
    decreases s.len(),
{
    if s.len() > 0 {
        lemma_free_count_nonneg(s.drop_last());
    }
}

/// Assigning a free label lowers the free count by one; rewriting an
/// assigned label to another assigned label leaves it unchanged.
proof fn lemma_free_count_update(s: Seq<usize>, i: int, v: usize)
    requires
        0 <= i < s.len(),
        v != FREE,
    ensures
        s[i] == FREE ==> free_count(s.update(i, v)) == free_count(s) - 1,
        s[i] != FREE ==> free_count(s.update(i, v)) == free_count(s),
    decreases s.len(),
{
    let t = s.update(i, v);
    if i == s.len() - 1 {
        assert(t.drop_last() =~= s.drop_last());
    } else {
        assert(t.drop_last() =~= s.drop_last().update(i, v));
        assert(t.last() == s.last());
        lemma_free_count_update(s.drop_last(), i, v);
    }
}

/// A generator that first runs an inner generator and then converts
/// impassable tiles until the chunk's passable tiles are connected: the
/// remaining components are repeatedly merged by making the smallest
/// component's impassable neighbours passable, with the largest component
/// biased by the passable tiles on the facing edges of already-generated
/// neighbouring chunks.
#[verifier::reject_recursive_types(T)]
pub struct AllConnected<T> {
    inner: Box<dyn Generator<T>>,
}

impl<T> AllConnected<T> {
    /// The generator whose output this one post-processes.
    pub closed spec fn inner_spec(self) -> Box<dyn Generator<T>> {
        self.inner
    }

    /// Wrap `inner`, whose output will be post-processed. The held
    /// generator is observable through [`AllConnected::inner_spec`].
    pub fn new(inner: Box<dyn Generator<T>>) -> (g: AllConnected<T>) {
        AllConnected { inner }
    }
}

/// The row-major index of the in-chunk orthogonal neighbour of `cur` in
/// direction `d`, if that neighbour exists.
fn neighbour_idx(cur: usize, d: usize, s: usize, n: usize) -> (r: Option<usize>)
    requires
        1 <= s,
        n == s * s,
        cur < n,
    ensures
        match r {
            Some(nb) => nb < n && ((nb as int % s as int == cur as int % s as int && (nb as int
                / s as int == cur as int / s as int + 1 || nb as int / s as int == cur as int
                / s as int - 1)) || (nb as int / s as int == cur as int / s as int && (
            nb as int % s as int == cur as int % s as int + 1 || nb as int % s as int
                == cur as int % s as int - 1))),
            None => true,
        },
{
    let cx = cur % s;
    let cy = cur / s;
    proof {
        lemma_mod_bound(cur as int, s as int);
        lemma_fundamental_div_mod(cur as int, s as int);
        assert((cx > 0 ==> cur >= 1) && (cy > 0 ==> cur >= s) && cur + s >= 0 && (cy + 1 < s
            ==> cur + s < n) && (cx + 1 < s ==> cur + 1 < n)) by (nonlinear_arith)
            requires
                cur as int == s as int * (cy as int) + (cx as int),
                0 <= (cx as int) < s as int,
                cy as int >= 0,
                s >= 1,
                n == s * s,
                cur < n,
        ;
    }
    proof {
        assert(cy as int * s as int == s as int * cy as int && (cy as int - 1) * s as int == s as int
            * cy as int - s as int && (cy as int + 1) * s as int == s as int * cy as int
            + s as int) by (nonlinear_arith);
        if cx > 0 {
            lemma_fundamental_div_mod_converse(cur - 1, s as int, cy as int, cx - 1);
        }
        if cx + 1 < s {
            lemma_fundamental_div_mod_converse(cur + 1, s as int, cy as int, cx + 1);
        }
        if cy > 0 {
            lemma_fundamental_div_mod_converse(cur - s, s as int, cy - 1, cx as int);
        }
        if cy + 1 < s {
            lemma_fundamental_div_mod_converse(cur + s, s as int, cy + 1, cx as int);
        }
    }
    if d == 0 && cx > 0 {
        Some(cur - 1)
    } else if d == 1 && cx + 1 < s {
        Some(cur + 1)
    } else if d == 2 && cy > 0 {
        Some(cur - s)
    } else if d == 3 && cy + 1 < s {
        Some(cur + s)
    } else {
        None
    }
}

/// Orthogonally adjacent row-major indices name orthogonally adjacent
/// points.
proof fn lemma_pt_at_adjacent(core: Rect, s: int, a: int, b: int)
    requires
        1 <= s,
        core.hi.x == core.lo.x + s,
        core.hi.y == core.lo.y + s,
        0 <= a < s * s,
        0 <= b < s * s,
        (b % s == a % s && (b / s == a / s + 1 || b / s == a / s - 1)) || (b / s == a / s && (b % s
            == a % s + 1 || b % s == a % s - 1)),
    ensures
        adjacent(pt_at(core, s, a), pt_at(core, s, b)),
        core.contains_point(pt_at(core, s, a)),
        core.contains_point(pt_at(core, s, b)),
{
    lemma_pt_at_roundtrip(core, s, a);
    lemma_pt_at_roundtrip(core, s, b);
    lemma_mod_bound(a, s);
    lemma_mod_bound(b, s);
    lemma_fundamental_div_mod(a, s);
    lemma_fundamental_div_mod(b, s);
    assert(0 <= a / s < s) by (nonlinear_arith)
        requires
            a == s * (a / s) + (a % s),
            0 <= (a % s) < s,
            0 <= a < s * s,
            1 <= s,
            a / s >= 0,
    ;
    assert(0 <= b / s < s) by (nonlinear_arith)
        requires
            b == s * (b / s) + (b % s),
            0 <= (b % s) < s,
            0 <= b < s * s,
            1 <= s,
            b / s >= 0,
    ;
}

/// The point of the core tile with row-major index `idx`.
fn idx_to_point(core: &Rect, size: u32, idx: usize) -> (p: Point)
    requires
        1 <= size <= i32::MAX,
        core.is_chunk(size),
        idx < size * size,
    ensures
        core.contains_point(p),
        p.x == core.lo.x + (idx as int % size as int),
        p.y == core.lo.y + (idx as int / size as int),
{
    let s = size as usize;
    let dx = idx % s;
    let dy = idx / s;
    proof {
        lemma_mod_bound(idx as int, s as int);
        lemma_fundamental_div_mod(idx as int, s as int);
        assert((idx as int / s as int) < s as int) by (nonlinear_arith)
            requires
                idx as int == s as int * (idx as int / s as int) + (idx as int % s as int),
                0 <= (idx as int % s as int) < s as int,
                idx < s * s,
                s >= 1,
                idx as int / s as int >= 0,
        ;
    }
    Point { x: core.lo.x + dx as i32, y: core.lo.y + dy as i32 }
}

/// What one carving pass changes: no tile appears or disappears, no tile
/// outside the core changes at all, and inside the core passability only
/// ever turns on, never off.
pub open spec fn carve_step<T: Passable>(
    pre: SparseMap<T>,
    post: SparseMap<T>,
    core: Rect,
) -> bool {
    &&& post.wf()
    &&& post.chunk_size_spec() == pre.chunk_size_spec()
    &&& forall|q: Point| post.covers(q) == pre.covers(q)
    &&& forall|q: Point| pre.covers(q) && !core.contains_point(q) ==> post@[q] == pre@[q]
    &&& forall|q: Point|
        pre.covers(q) && (#[trigger] pre@[q]).passable_spec() ==> post@[q].passable_spec()
}

/// The point with row-major index `i` inside chunk `core`.
pub open spec fn pt_at(core: Rect, s: int, i: int) -> Point {
    Point { x: (core.lo.x + i % s) as i32, y: (core.lo.y + i / s) as i32 }
}

/// `pt_at` and `row_idx` are inverse to each other.
proof fn lemma_pt_at_roundtrip(core: Rect, s: int, i: int)
    requires
        1 <= s,
        core.hi.x == core.lo.x + s,
        core.hi.y == core.lo.y + s,
        0 <= i < s * s,
    ensures
        core.contains_point(pt_at(core, s, i)),
        row_idx(core, s, pt_at(core, s, i)) == i,
{
    lemma_mod_bound(i, s);
    lemma_fundamental_div_mod(i, s);
    assert(0 <= i / s < s) by (nonlinear_arith)
        requires
            i == s * (i / s) + (i % s),
            0 <= (i % s) < s,
            0 <= i < s * s,
            1 <= s,
            i / s >= 0,
    ;
    assert((i / s) * s + (i % s) == i) by (nonlinear_arith)
        requires
            i == s * (i / s) + (i % s),
    ;
}

impl<T: Passable + Default> AllConnected<T> {
    /// Make the tiles of an L-shaped corridor from `anchor` to `target`
    /// passable, so that `target`, and every tile the corridor converted,
    /// reaches `anchor` through passable core tiles.
    fn carve_corridor(store: &mut SparseMap<T>, core: &Rect, anchor: Point, target: Point)
        requires
            old(store).wf(),
            1 <= old(store).chunk_size_spec() <= i32::MAX,
            i32::MIN + old(store).chunk_size_spec() <= core.lo.x,
            i32::MIN + old(store).chunk_size_spec() <= core.lo.y,
            forall|q: Point| core.contains_point(q) ==> old(store).covers(q),
            core.contains_point(anchor),
            core.contains_point(target),
            old(store)@[anchor].passable_spec(),
        ensures
            final(store).wf(),
            final(store).chunk_size_spec() == old(store).chunk_size_spec(),
            forall|q: Point| final(store).covers(q) == old(store).covers(q),
            forall|q: Point|
                old(store).covers(q) && !core.contains_point(q) ==> final(store)@[q] == old(
                    store,
                )@[q],
            forall|q: Point|
                old(store).covers(q) && (#[trigger] old(store)@[q].passable_spec()) ==> final(store)@[q].passable_spec(),
            exists|n: nat| reach(*final(store), *core, target, anchor, n),
            forall|q: Point|
                old(store).covers(q) && !old(store)@[q].passable_spec() && (#[trigger] final(store)@[q].passable_spec()) ==> exists|n: nat|
                    reach(*final(store), *core, q, anchor, n),
    {
        let mut cx = anchor.x;
        let mut cy = anchor.y;
        proof {
            assert(reach(*store, *core, anchor, anchor, 0nat));
        }
        while cx != target.x
            invariant
                store.wf(),
                store.chunk_size_spec() == old(store).chunk_size_spec(),
                1 <= old(store).chunk_size_spec() <= i32::MAX,
                i32::MIN + old(store).chunk_size_spec() <= core.lo.x,
                i32::MIN + old(store).chunk_size_spec() <= core.lo.y,
                forall|q: Point| core.contains_point(q) ==> old(store).covers(q),
                core.contains_point(anchor),
                core.contains_point(target),
                cy == anchor.y,
                core.lo.x <= cx < core.hi.x,
                anchor.x <= cx <= target.x || target.x <= cx <= anchor.x,
                forall|q: Point| store.covers(q) == old(store).covers(q),
                forall|q: Point|
                    old(store).covers(q) && !core.contains_point(q) ==> store@[q] == old(
                        store,
                    )@[q],
                forall|q: Point|
                    old(store).covers(q) && (#[trigger] old(store)@[q].passable_spec())
                        ==> store@[q].passable_spec(),
                store@[Point { x: cx, y: cy }].passable_spec(),
                exists|n: nat| reach(*store, *core, Point { x: cx, y: cy }, anchor, n),
                forall|q: Point|
                    old(store).covers(q) && !old(store)@[q].passable_spec() && (#[trigger] store@[
                        q
                    ].passable_spec()) ==> exists|n: nat| reach(*store, *core, q, anchor, n),
            decreases
                    (if cx < target.x {
                        target.x - cx
                    } else {
                        cx - target.x
                    }),
        {
            let nx = if cx < target.x {
                cx + 1
            } else {
                cx - 1
            };
            let ghost pre = *store;
            Self::corridor_step(
                store,
                core,
                anchor,
                Point { x: cx, y: cy },
                Point { x: nx, y: cy },
            );
            proof {
                assert forall|q: Point|
                    old(store).covers(q) && !old(store)@[q].passable_spec() && (#[trigger] store@[
                        q
                    ].passable_spec()) implies exists|n: nat|
                    reach(*store, *core, q, anchor, n) by {
                    if pre@[q].passable_spec() {
                        let n = choose|n: nat| reach(pre, *core, q, anchor, n);
                        lemma_reach_mono(pre, *store, *core, q, anchor, n);
                    }
                }
            }
            cx = nx;
        }
        while cy != target.y
            invariant
                store.wf(),
                store.chunk_size_spec() == old(store).chunk_size_spec(),
                1 <= old(store).chunk_size_spec() <= i32::MAX,
                i32::MIN + old(store).chunk_size_spec() <= core.lo.x,
                i32::MIN + old(store).chunk_size_spec() <= core.lo.y,
                forall|q: Point| core.contains_point(q) ==> old(store).covers(q),
                core.contains_point(anchor),
                core.contains_point(target),
                cx == target.x,
                core.lo.y <= cy < core.hi.y,
                anchor.y <= cy <= target.y || target.y <= cy <= anchor.y,
                forall|q: Point| store.covers(q) == old(store).covers(q),
                forall|q: Point|
                    old(store).covers(q) && !core.contains_point(q) ==> store@[q] == old(
                        store,
                    )@[q],
                forall|q: Point|
                    old(store).covers(q) && (#[trigger] old(store)@[q].passable_spec())
                        ==> store@[q].passable_spec(),
                store@[Point { x: cx, y: cy }].passable_spec(),
                exists|n: nat| reach(*store, *core, Point { x: cx, y: cy }, anchor, n),
                forall|q: Point|
                    old(store).covers(q) && !old(store)@[q].passable_spec() && (#[trigger] store@[
                        q
                    ].passable_spec()) ==> exists|n: nat| reach(*store, *core, q, anchor, n),
            decreases
                    (if cy < target.y {
                        target.y - cy
                    } else {
                        cy - target.y
                    }),
        {
            let ny = if cy < target.y {
                cy + 1
            } else {
                cy - 1
            };
            let ghost pre = *store;
            Self::corridor_step(
                store,
                core,
                anchor,
                Point { x: cx, y: cy },
                Point { x: cx, y: ny },
            );
            proof {
                assert forall|q: Point|
                    old(store).covers(q) && !old(store)@[q].passable_spec() && (#[trigger] store@[
                        q
                    ].passable_spec()) implies exists|n: nat|
                    reach(*store, *core, q, anchor, n) by {
                    if pre@[q].passable_spec() {
                        let n = choose|n: nat| reach(pre, *core, q, anchor, n);
                        lemma_reach_mono(pre, *store, *core, q, anchor, n);
                    }
                }
            }
            cy = ny;
        }
    }

    /// One corridor step: make `next`, an in-core orthogonal neighbour of
    /// the anchor-reaching tile `cur`, passable and anchor-reaching.
    fn corridor_step(store: &mut SparseMap<T>, core: &Rect, anchor: Point, cur: Point, next: Point)
        requires
            old(store).wf(),
            1 <= old(store).chunk_size_spec() <= i32::MAX,
            i32::MIN + old(store).chunk_size_spec() <= core.lo.x,
            i32::MIN + old(store).chunk_size_spec() <= core.lo.y,
            forall|q: Point| core.contains_point(q) ==> old(store).covers(q),
            core.contains_point(cur),
            core.contains_point(next),
            adjacent(cur, next),
            old(store)@[cur].passable_spec(),
            exists|n: nat| reach(*old(store), *core, cur, anchor, n),
        ensures
            final(store).wf(),
            final(store).chunk_size_spec() == old(store).chunk_size_spec(),
            forall|q: Point| final(store).covers(q) == old(store).covers(q),
            forall|q: Point|
                old(store).covers(q) && !core.contains_point(q) ==> final(store)@[q] == old(
                    store,
                )@[q],
            forall|q: Point|
                old(store).covers(q) && (#[trigger] old(store)@[q].passable_spec()) ==> final(store)@[q].passable_spec(),
            final(store)@[next].passable_spec(),
            exists|n: nat| reach(*final(store), *core, next, anchor, n),
            forall|q: Point|
                old(store).covers(q) && !old(store)@[q].passable_spec() && (#[trigger] final(store)@[q].passable_spec()) ==> exists|n: nat|
                    reach(*final(store), *core, q, anchor, n),
    {
        let passable_next = match store.get(&next) {
            Some(t) => t.is_passable(),
            None => false,
        };
        if !passable_next {
            match store.get_mut(&next) {
                Some(t) => t.set_passable(true),
                None => (),
            }
        }
        proof {
            let m0 = *old(store);
            let m1 = *store;
            assert forall|q: Point|
                m0.covers(q) && (#[trigger] m0@[q].passable_spec()) implies m1.covers(q) && m1@[
                q
            ].passable_spec() by {}
            let n0 = choose|n: nat| reach(m0, *core, cur, anchor, n);
            lemma_reach_mono(m0, m1, *core, cur, anchor, n0);
            assert(adjacent(next, cur));
            assert(reach(m1, *core, next, anchor, (n0 + 1) as nat));
            assert forall|q: Point|
                m0.covers(q) && !m0@[q].passable_spec() && (#[trigger] m1@[
                    q
                ].passable_spec()) implies exists|n: nat| reach(m1, *core, q, anchor, n) by {
                assert(q == next);
            }
        }
    }
}

impl<T: Passable + Default> AllConnected<T> {
    /// Carve until the passable tiles of `core_region` are mutually
    /// connected — one component exactly, or zero when the chunk is
    /// entirely impassable — reading the umbra ring for neighbour bias.
    /// Tiles outside the core keep their state, and tiles inside only ever
    /// become passable.
    pub fn carve(store: &mut SparseMap<T>, core_region: &Rect, umbra: &Rect)
        requires
            generation_pre(*old(store), *core_region, *umbra),
        ensures
            carve_step(*old(store), *final(store), *core_region),
            connected_core(*final(store), *core_region),
    {
        let size = store.chunk_size();
        proof {
            crate::sparse::lemma_wf_size_bounds(*store);
        }
        let s = size as usize;
        let n = s * s;
        // component labels of the core tiles, row-major; FREE for
        // impassable or unlabelled tiles
        let mut comp: Vec<usize> = Vec::new();
        while comp.len() < n
            invariant
                comp@.len() <= n,
                forall|i: int| 0 <= i < comp@.len() ==> comp@[i] == FREE,
            decreases n - comp@.len(),
        {
            comp.push(FREE);
        }
        proof {
            lemma_free_count_nonneg(comp@);
        }
        // label pass: breadth-first flood fill from every unlabelled
        // passable tile
        let mut next_id: usize = 0;
        let mut sizes: Vec<usize> = Vec::new();
        let mut start: usize = 0;
        while start < n
            invariant
                generation_pre(*old(store), *core_region, *umbra),
                carve_step(*old(store), *store, *core_region),
                store.chunk_size_spec() == size,
                1 <= size <= i32::MAX,
                s == size,
                n == s * s,
                comp@.len() == n,
                sizes@.len() == next_id,
                next_id < FREE,
                forall|i: int| 0 <= i < comp@.len() ==> (comp@[i] == FREE || comp@[i] < next_id),
                free_count(comp@) >= 0,
            decreases n - start,
        {
            let passable_here = match store.get(&idx_to_point(core_region, size, start)) {
                Some(t) => t.is_passable(),
                None => false,
            };
            if comp[start] == FREE && passable_here && next_id < FREE - 1 {
                let id = next_id;
                next_id += 1;
                sizes.push(0);
                let mut stack: Vec<usize> = Vec::new();
                comp.set(start, id);
                stack.push(start);
                proof {
                    lemma_free_count_nonneg(comp@);
                }
                while stack.len() > 0
                    invariant
                        generation_pre(*old(store), *core_region, *umbra),
                        carve_step(*old(store), *store, *core_region),
                        store.chunk_size_spec() == size,
                        1 <= size <= i32::MAX,
                        s == size,
                        n == s * s,
                        comp@.len() == n,
                        sizes@.len() == next_id,
                        next_id < FREE,
                        id < next_id,
                        forall|i: int|
                            0 <= i < comp@.len() ==> (comp@[i] == FREE || comp@[i] < next_id),
                        forall|i: int| 0 <= i < stack@.len() ==> stack@[i] < n,
                        free_count(comp@) >= 0,
                    decreases free_count(comp@), stack@.len(),
                {
                    let ghost comp0 = comp@;
                    let ghost stack0 = stack@;
                    let cur = stack.pop().unwrap();
                    let mut d: usize = 0;
                    let mut grew = false;
                    while d < 4
                        invariant
                            generation_pre(*old(store), *core_region, *umbra),
                            carve_step(*old(store), *store, *core_region),
                            store.chunk_size_spec() == size,
                            1 <= size <= i32::MAX,
                            s == size,
                            n == s * s,
                            comp@.len() == n,
                            sizes@.len() == next_id,
                            next_id < FREE,
                            id < next_id,
                            cur < n,
                            free_count(comp@) >= 0,
                            forall|i: int|
                                0 <= i < comp@.len() ==> (comp@[i] == FREE || comp@[i]
                                    < next_id),
                            forall|i: int| 0 <= i < stack@.len() ==> stack@[i] < n,
                            !grew ==> comp@ == comp0 && stack@ == stack0.drop_last(),
                            grew ==> free_count(comp@) < free_count(comp0),
                            free_count(comp@) <= free_count(comp0),
                        decreases 4 - d,
                    {
                        let neighbour: Option<usize> = neighbour_idx(cur, d, s, n);
                        match neighbour {
                            Some(nb) => {
                                let passable_nb = match store.get(
                                    &idx_to_point(core_region, size, nb),
                                ) {
                                    Some(t) => t.is_passable(),
                                    None => false,
                                };
                                if comp[nb] == FREE && passable_nb {
                                    proof {
                                        lemma_free_count_update(comp@, nb as int, id);
                                        lemma_free_count_nonneg(comp@);
                                    }
                                    comp.set(nb, id);
                                    proof {
                                        lemma_free_count_nonneg(comp@);
                                    }
                                    stack.push(nb);
                                    if sizes[id] < FREE - 1 {
                                        sizes.set(id, sizes[id] + 1);
                                    }
                                    grew = true;
                                }
                            },
                            None => (),
                        }
                        d += 1;
                    }
                }
            }
            start += 1;
        }
        // neighbour bias: every passable tile on a facing edge of an
        // already-generated neighbouring chunk counts toward the largest
        // component, so carving tends to connect with existing terrain
        let mut largest: usize = 0;
        let mut li: usize = 0;
        while li < sizes.len()
            invariant
                largest <= li,
                li <= sizes@.len(),
                sizes@.len() > 0 ==> largest < sizes@.len(),
            decreases sizes@.len() - li,
        {
            if sizes[li] > sizes[largest] {
                largest = li;
            }
            li += 1;
        }
        if next_id > 0 {
            let mut e: usize = 0;
            while e < s
                invariant
                    generation_pre(*old(store), *core_region, *umbra),
                    store.chunk_size_spec() == size,
                    s == size,
                    largest < sizes@.len(),
                    sizes@.len() == next_id,
                decreases s - e,
            {
                let ex = core_region.lo.x + e as i32;
                let ey = core_region.lo.y + e as i32;
                let ring = [
                    Point { x: core_region.lo.x - 1, y: ey },
                    Point { x: core_region.hi.x, y: ey },
                    Point { x: ex, y: core_region.lo.y - 1 },
                    Point { x: ex, y: core_region.hi.y },
                ];
                let mut d: usize = 0;
                while d < 4
                    invariant
                        generation_pre(*old(store), *core_region, *umbra),
                        store.chunk_size_spec() == size,
                        s == size,
                        largest < sizes@.len(),
                        sizes@.len() == next_id,
                        e < s,
                        ring@.len() == 4,
                        forall|i: int|
                            0 <= i < 4 ==> i32::MIN + size <= (#[trigger] ring@[i]).x && i32::MIN
                                + size <= ring@[i].y,
                    decreases 4 - d,
                {
                    let passable_edge = match store.get(&ring[d]) {
                        Some(t) => t.is_passable(),
                        None => false,
                    };
                    if passable_edge && sizes[largest] < FREE - 1 {
                        let grown = sizes[largest] + 1;
                        sizes.set(largest, grown);
                    }
                    d += 1;
                }
                e += 1;
            }
        }
        // merge pass: while more than one component remains, make the
        // impassable in-chunk neighbours of the smallest component passable
        // and fold any components this connects into it
        let mut comp_count = next_id;
        while comp_count > 1
            invariant
                generation_pre(*old(store), *core_region, *umbra),
                carve_step(*old(store), *store, *core_region),
                store.chunk_size_spec() == size,
                1 <= size <= i32::MAX,
                s == size,
                n == s * s,
                comp@.len() == n,
                sizes@.len() == next_id,
                next_id < FREE,
                forall|i: int| 0 <= i < comp@.len() ==> (comp@[i] == FREE || comp@[i] < next_id),
                free_count(comp@) >= 0,
            decreases free_count(comp@),
        {
            proof {
                lemma_free_count_nonneg(comp@);
            }
            let ghost compstart = comp@;
            // the smallest component that still owns a tile
            let mut present: Vec<bool> = Vec::new();
            while present.len() < next_id
                invariant
                    present@.len() <= next_id,
                    forall|i: int| 0 <= i < present@.len() ==> !present@[i],
                decreases next_id - present@.len(),
            {
                present.push(false);
            }
            let mut pi: usize = 0;
            while pi < n
                invariant
                    comp@.len() == n,
                    present@.len() == next_id,
                    next_id < FREE,
                    forall|i: int|
                        0 <= i < comp@.len() ==> (comp@[i] == FREE || comp@[i] < next_id),
                    pi <= n,
                decreases n - pi,
            {
                let cc = comp[pi];
                if cc != FREE {
                    present.set(cc, true);
                }
                pi += 1;
            }
            let mut smallest: usize = 0;
            let mut found = false;
            let mut si: usize = 0;
            while si < next_id
                invariant
                    present@.len() == next_id,
                    sizes@.len() == next_id,
                    found ==> smallest < next_id,
                    si <= next_id,
                decreases next_id - si,
            {
                if present[si] {
                    if !found || sizes[si] < sizes[smallest] {
                        smallest = si;
                        found = true;
                    }
                }
                si += 1;
            }
            if !found {
                break ;
            }
            // collect the impassable in-chunk neighbours of the smallest
            // component
            let mut to_expand: Vec<usize> = Vec::new();
            let mut ti: usize = 0;
            while ti < n
                invariant
                    generation_pre(*old(store), *core_region, *umbra),
                    store.chunk_size_spec() == size,
                    s == size,
                    n == s * s,
                    comp@.len() == n,
                    ti <= n,
                    forall|i: int| 0 <= i < to_expand@.len() ==> to_expand@[i] < n,
                decreases n - ti,
            {
                if comp[ti] == smallest {
                    let mut d: usize = 0;
                    while d < 4
                        invariant
                            n == s * s,
                            s >= 1,
                            comp@.len() == n,
                            ti < n,
                            forall|i: int| 0 <= i < to_expand@.len() ==> to_expand@[i] < n,
                        decreases 4 - d,
                    {
                        match neighbour_idx(ti, d, s, n) {
                            Some(nb) => {
                                if comp[nb] == FREE {
                                    to_expand.push(nb);
                                }
                            },
                            None => (),
                        }
                        d += 1;
                    }
                }
                ti += 1;
            }
            // convert them, and fold the components they touch into the
            // smallest one
            let mut converted = false;
            let mut xi: usize = 0;
            while xi < to_expand.len()
                invariant
                    generation_pre(*old(store), *core_region, *umbra),
                    carve_step(*old(store), *store, *core_region),
                    store.chunk_size_spec() == size,
                    1 <= size <= i32::MAX,
                    s == size,
                    n == s * s,
                    comp@.len() == n,
                    next_id < FREE,
                    smallest < next_id,
                    free_count(comp@) >= 0,
                    forall|i: int| 0 <= i < to_expand@.len() ==> to_expand@[i] < n,
                    forall|i: int|
                        0 <= i < comp@.len() ==> (comp@[i] == FREE || comp@[i] < next_id),
                    !converted ==> comp@ == compstart,
                    converted ==> free_count(comp@) < free_count(compstart),
                    free_count(comp@) <= free_count(compstart),
                    xi <= to_expand@.len(),
                decreases to_expand@.len() - xi,
            {
                let e = to_expand[xi];
                if comp[e] == FREE {
                    match store.get_mut(&idx_to_point(core_region, size, e)) {
                        Some(t) => t.set_passable(true),
                        None => (),
                    }
                    proof {
                        lemma_free_count_update(comp@, e as int, smallest);
                        lemma_free_count_nonneg(comp@);
                    }
                    comp.set(e, smallest);
                    proof {
                        lemma_free_count_nonneg(comp@);
                    }
                    converted = true;
                    // fold every component adjacent to the converted tile
                    // into the smallest one
                    let mut d: usize = 0;
                    while d < 4
                        invariant
                            n == s * s,
                            s >= 1,
                            comp@.len() == n,
                            e < n,
                            next_id < FREE,
                            smallest < next_id,
                            forall|i: int|
                                0 <= i < comp@.len() ==> (comp@[i] == FREE || comp@[i]
                                    < next_id),
                            free_count(comp@) < free_count(compstart),
                            free_count(comp@) >= 0,
                        decreases 4 - d,
                    {
                        match neighbour_idx(e, d, s, n) {
                            Some(nb) => {
                                let other = comp[nb];
                                if other != FREE && other != smallest {
                                    // relabel the whole other component
                                    let mut ri: usize = 0;
                                    while ri < n
                                        invariant
                                            comp@.len() == n,
                                            next_id < FREE,
                                            smallest < next_id,
                                            other != FREE,
                                            forall|i: int|
                                                0 <= i < comp@.len() ==> (comp@[i] == FREE
                                                    || comp@[i] < next_id),
                                            free_count(comp@) < free_count(compstart),
                                            free_count(comp@) >= 0,
                                            ri <= n,
                                        decreases n - ri,
                                    {
                                        if comp[ri] == other {
                                            proof {
                                                lemma_free_count_update(comp@, ri as int, smallest);
                                            }
                                            comp.set(ri, smallest);
                                            proof {
                                                lemma_free_count_nonneg(comp@);
                                            }
                                        }
                                        ri += 1;
                                    }
                                    if comp_count > 1 {
                                        comp_count -= 1;
                                    }
                                }
                            },
                            None => (),
                        }
                        d += 1;
                    }
                }
                xi += 1;
            }
            if !converted {
                break ;
            }
        }
        // connection sweep: find an anchor passable tile, mark everything
        // already reachable from it, and carve a corridor to it from any
        // passable tile left over, so that the passable tiles of the core
        // are mutually connected whatever the merging above achieved
        let ghost corer = *core_region;
        let ghost si = s as int;
        let mut anchor_idx: usize = 0;
        let mut have_anchor = false;
        let mut ai: usize = 0;
        while ai < n
            invariant
                generation_pre(*old(store), *core_region, *umbra),
                carve_step(*old(store), *store, *core_region),
                corer == *core_region,
                si == s as int,
                1 <= size <= i32::MAX,
                s == size,
                n == s * s,
                store.chunk_size_spec() == size,
                ai <= n,
                have_anchor ==> anchor_idx < n && store@[pt_at(corer, si, anchor_idx as int)].passable_spec(),
                !have_anchor ==> forall|j: int|
                    0 <= j < ai ==> !store@[pt_at(corer, si, j)].passable_spec(),
            decreases n - ai,
        {
            if !have_anchor {
                let p = idx_to_point(core_region, size, ai);
                proof {
                    lemma_pt_at_roundtrip(corer, si, ai as int);
                    assert(p == pt_at(corer, si, ai as int));
                }
                let passable = match store.get(&p) {
                    Some(t) => t.is_passable(),
                    None => false,
                };
                if passable {
                    anchor_idx = ai;
                    have_anchor = true;
                }
            }
            ai += 1;
        }
        if !have_anchor {
            proof {
                assert forall|a: Point, b: Point|
                    corer.contains_point(a) && corer.contains_point(b) && store.covers(a)
                        && store.covers(b) && (#[trigger] store@[a].passable_spec()) && (
                    #[trigger] store@[b].passable_spec()) implies exists|k: nat|
                    reach(*store, corer, a, b, k) by {
                    lemma_row_idx_roundtrip(corer, si, a);
                    assert(a == pt_at(corer, si, row_idx(corer, si, a)));
                    assert(!store@[a].passable_spec());
                }
            }
            return ;
        }
        let anchor_p = idx_to_point(core_region, size, anchor_idx);
        let ghost ap = pt_at(corer, si, anchor_idx as int);
        proof {
            lemma_pt_at_roundtrip(corer, si, anchor_idx as int);
            assert(anchor_p == ap);
            assert(corer.contains_point(ap));
        }
        // mark every tile already reachable from the anchor
        let mut visited: Vec<usize> = Vec::new();
        while visited.len() < n
            invariant
                visited@.len() <= n,
                forall|i: int| 0 <= i < visited@.len() ==> visited@[i] == FREE,
            decreases n - visited@.len(),
        {
            visited.push(FREE);
        }
        visited.set(anchor_idx, 0);
        let mut stack: Vec<usize> = Vec::new();
        stack.push(anchor_idx);
        proof {
            lemma_free_count_nonneg(visited@);
            assert(reach(*store, corer, ap, ap, 0nat));
        }
        while stack.len() > 0
            invariant
                generation_pre(*old(store), *core_region, *umbra),
                carve_step(*old(store), *store, *core_region),
                corer == *core_region,
                si == s as int,
                1 <= size <= i32::MAX,
                s == size,
                n == s * s,
                store.chunk_size_spec() == size,
                visited@.len() == n,
                free_count(visited@) >= 0,
                forall|i: int| 0 <= i < stack@.len() ==> stack@[i] < n,
                forall|i: int|
                    0 <= i < stack@.len() ==> visited@[#[trigger] stack@[i] as int] != FREE,
                forall|i: int|
                    0 <= i < n && visited@[i] != FREE ==> exists|k: nat|
                        reach(*store, corer, pt_at(corer, si, i), ap, k),
            decreases free_count(visited@), stack@.len(),
        {
            let ghost visited0 = visited@;
            let ghost stack0 = stack@;
            let cur = stack.pop().unwrap();
            let mut d: usize = 0;
            let mut grew = false;
            while d < 4
                invariant
                    generation_pre(*old(store), *core_region, *umbra),
                    carve_step(*old(store), *store, *core_region),
                    corer == *core_region,
                    si == s as int,
                    1 <= size <= i32::MAX,
                    s == size,
                    n == s * s,
                    store.chunk_size_spec() == size,
                    visited@.len() == n,
                    free_count(visited@) >= 0,
                    cur < n,
                    visited@[cur as int] != FREE,
                    forall|i: int| 0 <= i < stack@.len() ==> stack@[i] < n,
                    forall|i: int|
                        0 <= i < stack@.len() ==> visited@[#[trigger] stack@[i] as int] != FREE,
                    forall|i: int|
                        0 <= i < n && visited@[i] != FREE ==> exists|k: nat|
                            reach(*store, corer, pt_at(corer, si, i), ap, k),
                    !grew ==> visited@ == visited0 && stack@ == stack0.drop_last(),
                    grew ==> free_count(visited@) < free_count(visited0),
                    free_count(visited@) <= free_count(visited0),
                decreases 4 - d,
            {
                match neighbour_idx(cur, d, s, n) {
                    Some(nb) => {
                        let p_nb = idx_to_point(core_region, size, nb);
                        proof {
                            lemma_pt_at_roundtrip(corer, si, nb as int);
                            assert(p_nb == pt_at(corer, si, nb as int));
                        }
                        let passable_nb = match store.get(&p_nb) {
                            Some(t) => t.is_passable(),
                            None => false,
                        };
                        if passable_nb && visited[nb] == FREE {
                            proof {
                                lemma_free_count_update(visited@, nb as int, 0);
                                lemma_pt_at_adjacent(corer, si, nb as int, cur as int);
                                let k = choose|k: nat|
                                    reach(*store, corer, pt_at(corer, si, cur as int), ap, k);
                                assert(adjacent(pt_at(corer, si, nb as int), pt_at(corer, si, cur as int))
                                    && reach(*store, corer, pt_at(corer, si, cur as int), ap, k));
                                assert(reach(*store, corer, pt_at(corer, si, nb as int), ap, (k + 1) as nat));
                            }
                            visited.set(nb, 0);
                            proof {
                                lemma_free_count_nonneg(visited@);
                            }
                            stack.push(nb);
                            grew = true;
                        }
                    },
                    None => (),
                }
                d += 1;
            }
        }
        // carve a corridor to the anchor from every passable tile that is
        // not already connected to it
        let mut i: usize = 0;
        while i < n
            invariant
                generation_pre(*old(store), *core_region, *umbra),
                carve_step(*old(store), *store, *core_region),
                corer == *core_region,
                si == s as int,
                1 <= size <= i32::MAX,
                s == size,
                n == s * s,
                store.chunk_size_spec() == size,
                i <= n,
                visited@.len() == n,
                corer.contains_point(ap),
                store.covers(ap),
                store@[ap].passable_spec(),
                anchor_p == ap,
                forall|j: int|
                    0 <= j < n && visited@[j] != FREE ==> exists|k: nat|
                        reach(*store, corer, pt_at(corer, si, j), ap, k),
                forall|q: Point|
                    corer.contains_point(q) && (#[trigger] store@[q].passable_spec()) ==> ((
                    exists|k: nat| reach(*store, corer, q, ap, k)) || row_idx(corer, si, q)
                        >= i),
            decreases n - i,
        {
            let p = idx_to_point(core_region, size, i);
            proof {
                lemma_pt_at_roundtrip(corer, si, i as int);
                assert(p == pt_at(corer, si, i as int));
            }
            let passable = match store.get(&p) {
                Some(t) => t.is_passable(),
                None => false,
            };
            if passable && visited[i] == FREE {
                let ghost pre = *store;
                Self::carve_corridor(store, core_region, anchor_p, p);
                proof {
                    assert forall|j: int|
                        0 <= j < n && visited@[j] != FREE implies exists|k: nat|
                        reach(*store, corer, pt_at(corer, si, j), ap, k) by {
                        let k = choose|k: nat| reach(pre, corer, pt_at(corer, si, j), ap, k);
                        lemma_reach_mono(pre, *store, corer, pt_at(corer, si, j), ap, k);
                    }
                    assert forall|q: Point|
                        corer.contains_point(q) && (#[trigger] store@[q].passable_spec()) implies ((
                        exists|k: nat| reach(*store, corer, q, ap, k)) || row_idx(corer, si, q)
                            >= i + 1) by {
                        lemma_row_idx_roundtrip(corer, si, q);
                        if pre@[q].passable_spec() {
                            if row_idx(corer, si, q) < i {
                                let k = choose|k: nat| reach(pre, corer, q, ap, k);
                                lemma_reach_mono(pre, *store, corer, q, ap, k);
                            } else if row_idx(corer, si, q) == i {
                                assert(q == pt_at(corer, si, row_idx(corer, si, q)));
                                assert(q == p);
                            }
                        }
                    }
                }
            } else {
                proof {
                    assert forall|q: Point|
                        corer.contains_point(q) && (#[trigger] store@[q].passable_spec()) implies ((
                        exists|k: nat| reach(*store, corer, q, ap, k)) || row_idx(corer, si, q)
                            >= i + 1) by {
                        lemma_row_idx_roundtrip(corer, si, q);
                        if row_idx(corer, si, q) == i {
                            assert(q == pt_at(corer, si, row_idx(corer, si, q)));
                            assert(q == p);
                        }
                    }
                }
            }
            i += 1;
        }
        proof {
            assert forall|a: Point, b: Point|
                corer.contains_point(a) && corer.contains_point(b) && store.covers(a)
                    && store.covers(b) && (#[trigger] store@[a].passable_spec()) && (
                #[trigger] store@[b].passable_spec()) implies exists|k: nat|
                reach(*store, corer, a, b, k) by {
                lemma_row_idx_roundtrip(corer, si, a);
                lemma_row_idx_roundtrip(corer, si, b);
                let ka = choose|k: nat| reach(*store, corer, a, ap, k);
                let kb = choose|k: nat| reach(*store, corer, b, ap, k);
                lemma_reach_sym(*store, corer, b, ap, kb);
                lemma_reach_trans(*store, corer, a, ap, b, ka, kb);
            }
        }
    }
}

impl<T: Passable + Default> Generator<T> for AllConnected<T> {
    fn generate(&mut self, store: &mut SparseMap<T>, core_region: &Rect, umbra: &Rect) {
        self.inner.generate(store, core_region, umbra);
        let ghost mid = *store;
        Self::carve(store, core_region, umbra);
        proof {
            assert forall|q: Point|
                mid.covers(q) && !umbra.contains_point(q) implies store@[q] == mid@[q] by {
                assert(!core_region.contains_point(q));
            }
        }
    }
}

} // verus!
