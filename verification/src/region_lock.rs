//! A shared/exclusive lock whose units of exclusion are axis-aligned
//! rectangles of point-space.
//!
//! The lock is a state machine over plain values: acquisitions mint a fresh
//! [`LockKey`], conflicting blocking requests are queued on the holder that
//! blocks them, and a release hands back the keys to wake. An embedding
//! program parks a thread on a queued key and retries once it is woken; the
//! decisions themselves are all made, and verified, here.
//!
//! Two invariants hold of every reachable lock state: no two active
//! exclusive holders cover overlapping rectangles, and no active exclusive
//! holder overlaps any active shared holder. [`lemma_active_holders_disjoint`]
//! states them publicly.

use crate::point::{Point, Rect};
use vstd::prelude::*;

verus! {

broadcast use vstd::seq_lib::group_seq_properties, vstd::seq::Seq::lemma_push_map_commute;

/// Identifies one acquisition: a serial number, and whether the acquisition
/// is exclusive.
#[derive(Clone, Copy, PartialEq, Eq, Hash, Debug, Structural)]
pub struct LockKey {
    pub id: usize,
    pub exclusive: bool,
}

/// One active holder, as the ghost model sees it.
#[verifier::ext_equal]
pub struct HolderView {
    pub key: LockKey,
    pub regions: Seq<Rect>,
    pub queue: Seq<LockKey>,
}

/// The ghost model of a [`Lock`]: the active exclusive and shared holders,
/// in acquisition order, the count of pending (queued, possibly parked)
/// acquisitions, and the next serial number to mint.
#[verifier::ext_equal]
pub struct LockView {
    pub writes: Seq<HolderView>,
    pub reads: Seq<HolderView>,
    pub pending: int,
    pub next_id: int,
}

/// Whether some rectangle of `a` overlaps some rectangle of `b`.
pub open spec fn regions_conflict(a: Seq<Rect>, b: Seq<Rect>) -> bool {
    exists|i: int, j: int|
        0 <= i < a.len() && 0 <= j < b.len() && a[i].overlaps(b[j])
}

/// Conflict is symmetric, because rectangle overlap is.
pub proof fn lemma_regions_conflict_symmetric(a: Seq<Rect>, b: Seq<Rect>)
    ensures
        regions_conflict(a, b) == regions_conflict(b, a),
{
    if regions_conflict(a, b) {
        let (i, j): (int, int) = choose|i: int, j: int|
            0 <= i < a.len() && 0 <= j < b.len() && a[i].overlaps(b[j]);
        assert(b[j].overlaps(a[i]));
    }
    if regions_conflict(b, a) {
        let (i, j): (int, int) = choose|i: int, j: int|
            0 <= i < b.len() && 0 <= j < a.len() && b[i].overlaps(a[j]);
        assert(a[j].overlaps(b[i]));
    }
}

impl LockView {
    /// A shared request for `regions` is blocked: some active exclusive
    /// holder overlaps it.
    pub open spec fn blocks_read(self, regions: Seq<Rect>) -> bool {
        exists|i: int|
            0 <= i < self.writes.len() && regions_conflict(regions, self.writes[i].regions)
    }

    /// An exclusive request for `regions` is blocked: some active holder of
    /// either kind overlaps it.
    pub open spec fn blocks_write(self, regions: Seq<Rect>) -> bool {
        self.blocks_read(regions) || exists|i: int|
            0 <= i < self.reads.len() && regions_conflict(regions, self.reads[i].regions)
    }

    /// `key` belongs to an active holder.
    pub open spec fn holds(self, key: LockKey) -> bool {
        if key.exclusive {
            exists|i: int| 0 <= i < self.writes.len() && self.writes[i].key == key
        } else {
            exists|i: int| 0 <= i < self.reads.len() && self.reads[i].key == key
        }
    }

    /// The state after a shared acquisition of `regions` under `key`.
    pub open spec fn with_read(self, key: LockKey, regions: Seq<Rect>) -> LockView {
        LockView {
            writes: self.writes,
            reads: self.reads.push(HolderView { key, regions, queue: Seq::empty() }),
            pending: self.pending,
            next_id: self.next_id + 1,
        }
    }

    /// The state after an exclusive acquisition of `regions` under `key`.
    pub open spec fn with_write(self, key: LockKey, regions: Seq<Rect>) -> LockView {
        LockView {
            writes: self.writes.push(HolderView { key, regions, queue: Seq::empty() }),
            reads: self.reads,
            pending: self.pending,
            next_id: self.next_id + 1,
        }
    }

    /// No two active exclusive holders overlap.
    pub open spec fn writes_pairwise_disjoint(self) -> bool {
        forall|i: int, j: int|
            0 <= i < self.writes.len() && 0 <= j < self.writes.len() && i != j
                ==> !regions_conflict(
                #[trigger] self.writes[i].regions,
                #[trigger] self.writes[j].regions,
            )
    }

    /// No active exclusive holder overlaps an active shared holder.
    pub open spec fn writes_reads_disjoint(self) -> bool {
        forall|i: int, j: int|
            0 <= i < self.writes.len() && 0 <= j < self.reads.len() ==> !regions_conflict(
                #[trigger] self.writes[i].regions,
                #[trigger] self.reads[j].regions,
            )
    }

    /// Every reachable lock state satisfies this.
    pub open spec fn wf(self) -> bool {
        &&& forall|i: int| 0 <= i < self.writes.len() ==> (#[trigger] self.writes[i].key).exclusive
        &&& forall|i: int| 0 <= i < self.reads.len() ==> !(#[trigger] self.reads[i].key).exclusive
        &&& forall|i: int| 0 <= i < self.writes.len() ==> (#[trigger] self.writes[i].key).id < self.next_id
        &&& forall|i: int| 0 <= i < self.reads.len() ==> (#[trigger] self.reads[i].key).id < self.next_id
        &&& forall|i: int, j: int|
            0 <= i < self.writes.len() && 0 <= j < self.writes.len() && i != j
                ==> (#[trigger] self.writes[i].key).id != (#[trigger] self.writes[j].key).id
        &&& forall|i: int, j: int|
            0 <= i < self.reads.len() && 0 <= j < self.reads.len() && i != j
                ==> (#[trigger] self.reads[i].key).id != (#[trigger] self.reads[j].key).id
        &&& 0 <= self.pending <= self.next_id
        &&& self.writes_pairwise_disjoint()
        &&& self.writes_reads_disjoint()
    }
}


/// A conflict-free acquisition preserves well-formedness.
proof fn lemma_wf_after_acquire(v: LockView, key: LockKey, regions: Seq<Rect>, is_write: bool)
    requires
        v.wf(),
        key.id == v.next_id,
        key.exclusive == is_write,
        is_write ==> !v.blocks_write(regions),
        !is_write ==> !v.blocks_read(regions),
    ensures
        is_write ==> v.with_write(key, regions).wf(),
        !is_write ==> v.with_read(key, regions).wf(),
{
    if is_write {
        let w = v.with_write(key, regions);
        assert forall|i: int, j: int|
            0 <= i < w.writes.len() && 0 <= j < w.writes.len() && i != j implies !regions_conflict(
            (#[trigger] w.writes[i]).regions,
            (#[trigger] w.writes[j]).regions,
        ) by {
            if j == v.writes.len() {
                lemma_regions_conflict_symmetric(w.writes[i].regions, regions);
            }
        }
        assert forall|i: int, j: int|
            0 <= i < w.writes.len() && 0 <= j < w.reads.len() implies !regions_conflict(
            (#[trigger] w.writes[i]).regions,
            (#[trigger] w.reads[j]).regions,
        ) by {}
        assert(w.wf());
    } else {
        let w = v.with_read(key, regions);
        assert forall|i: int, j: int|
            0 <= i < w.writes.len() && 0 <= j < w.reads.len() implies !regions_conflict(
            (#[trigger] w.writes[i]).regions,
            (#[trigger] w.reads[j]).regions,
        ) by {
            if j == v.reads.len() {
                lemma_regions_conflict_symmetric(w.writes[i].regions, regions);
            }
        }
        assert(w.wf());
    }
}

/// One active holder: its key, the rectangles it covers, and the keys
/// queued waiting for it to release.
struct Holder {
    key: LockKey,
    regions: Vec<Rect>,
    queue: Vec<LockKey>,
}

impl View for Holder {
    type V = HolderView;

    closed spec fn view(&self) -> HolderView {
        HolderView { key: self.key, regions: self.regions@, queue: self.queue@ }
    }
}

/// The region lock. One instance guards one point-space.
pub struct Lock {
    write: Vec<Holder>,
    read: Vec<Holder>,
    pending: usize,
    lock_id: usize,
}

impl View for Lock {
    type V = LockView;

    closed spec fn view(&self) -> LockView {
        LockView {
            writes: self.write@.map_values(|h: Holder| h@),
            reads: self.read@.map_values(|h: Holder| h@),
            pending: self.pending as int,
            next_id: self.lock_id as int,
        }
    }
}

/// Witness of one acquisition; release it through
/// [`Lock::unlock_region`].
pub struct Guard {
    pub key: LockKey,
}

/// What an acquisition attempt did.
pub enum LockAttempt {
    /// The lock was taken; the guard's key identifies the new holder.
    Acquired(Guard),
    /// The request conflicts; its key was queued on a conflicting holder,
    /// to be woken when that holder releases.
    Queued(LockKey),
    /// The request conflicts and was non-blocking; the state is unchanged.
    Refused,
}

/// The two region-disjointness invariants of the lock, stated publicly:
/// active exclusive holders are pairwise disjoint, and every active
/// exclusive holder is disjoint from every active shared holder.
pub proof fn lemma_active_holders_disjoint(v: LockView)
    requires
        v.wf(),
    ensures
        v.writes_pairwise_disjoint(),
        v.writes_reads_disjoint(),
{
}

impl Lock {
    /// A fresh lock with no holders.
    pub fn new() -> (l: Lock)
        ensures
            l@.wf(),
            l@.writes.len() == 0,
            l@.reads.len() == 0,
            l@.pending == 0,
            l@.next_id == 0,
    {
        let l = Lock { write: Vec::new(), read: Vec::new(), pending: 0, lock_id: 0 };
        proof {
            assert(l@.writes =~= Seq::<HolderView>::empty());
            assert(l@.reads =~= Seq::<HolderView>::empty());
        }
        l
    }

    /// Whether any rectangle of `a` overlaps any rectangle of `b`.
    fn regions_conflict_exec(a: &Vec<Rect>, b: &Vec<Rect>) -> (res: bool)
        ensures
            res == regions_conflict(a@, b@),
    {
        let mut i: usize = 0;
        while i < a.len()
            invariant
                i <= a.len(),
                forall|k: int, j: int|
                    0 <= k < i && 0 <= j < b@.len() ==> !#[trigger] a@[k].overlaps(b@[j]),
            decreases a.len() - i,
        {
            let mut j: usize = 0;
            while j < b.len()
                invariant
                    i < a.len(),
                    j <= b.len(),
                    forall|k: int, l: int|
                        0 <= k < i && 0 <= l < b@.len() ==> !#[trigger] a@[k].overlaps(b@[l]),
                    forall|l: int| 0 <= l < j ==> !#[trigger] a@[i as int].overlaps(b@[l]),
                decreases b.len() - j,
            {
                if Point::overlap_rect(&a[i], &b[j]) {
                    return true;
                }
                j += 1;
            }
            i += 1;
        }
        false
    }

    /// The index of the first holder in `holders` whose regions overlap
    /// `regions`, if any.
    fn find_conflict(holders: &Vec<Holder>, regions: &Vec<Rect>) -> (res: Option<usize>)
        ensures
            match res {
                Some(i) => {
                    &&& i < holders@.len()
                    &&& regions_conflict(regions@, holders@[i as int]@.regions)
                    &&& forall|j: int|
                        0 <= j < i ==> !regions_conflict(
                            regions@,
                            (#[trigger] holders@[j])@.regions,
                        )
                },
                None => forall|j: int|
                    0 <= j < holders@.len() ==> !regions_conflict(
                        regions@,
                        (#[trigger] holders@[j])@.regions,
                    ),
            },
    {
        let mut i: usize = 0;
        while i < holders.len()
            invariant
                i <= holders.len(),
                forall|j: int|
                    0 <= j < i ==> !regions_conflict(regions@, (#[trigger] holders@[j])@.regions),
            decreases holders.len() - i,
        {
            if Self::regions_conflict_exec(regions, &holders[i].regions) {
                return Some(i);
            }
            i += 1;
        }
        None
    }

    /// An exact copy of a rectangle list.
    fn copy_rects(v: &Vec<Rect>) -> (res: Vec<Rect>)
        ensures
            res@ == v@,
    {
        let mut res: Vec<Rect> = Vec::new();
        let mut i: usize = 0;
        while i < v.len()
            invariant
                i <= v.len(),
                res@ == v@.take(i as int),
            decreases v.len() - i,
        {
            res.push(v[i]);
            proof {
                assert(res@ =~= v@.take(i + 1 as int));
            }
            i += 1;
        }
        proof {
            assert(res@ =~= v@);
        }
        res
    }

    /// One acquisition attempt for `regions`, exclusive if `is_write`.
    ///
    /// On no conflict the request becomes an active holder under a fresh
    /// key. On conflict, a blocking request is queued, under a fresh key,
    /// on the first conflicting holder in scan order (exclusive holders
    /// first), so a release of that holder will wake it; a non-blocking
    /// request leaves the lock unchanged.
    #[verifier::rlimit(60)]
    #[verifier::spinoff_prover]
    pub fn lock_region(&mut self, regions: &Vec<Rect>, is_write: bool, blocking: bool) -> (r:
        LockAttempt)
        requires
            old(self)@.wf(),
            old(self)@.next_id < usize::MAX,
        ensures
            final(self)@.wf(),
            match r {
                LockAttempt::Acquired(g) => {
                    &&& g.key.id == old(self)@.next_id
                    &&& g.key.exclusive == is_write
                    &&& is_write ==> !old(self)@.blocks_write(regions@) && final(self)@ == old(
                        self,
                    )@.with_write(g.key, regions@)
                    &&& !is_write ==> !old(self)@.blocks_read(regions@) && final(self)@ == old(
                        self,
                    )@.with_read(g.key, regions@)
                },
                LockAttempt::Queued(k) => {
                    &&& blocking
                    &&& k.id == old(self)@.next_id
                    &&& k.exclusive == is_write
                    &&& final(self)@.next_id == old(self)@.next_id + 1
                    &&& final(self)@.pending == old(self)@.pending + 1
                    &&& if is_write {
                        old(self)@.blocks_write(regions@)
                    } else {
                        old(self)@.blocks_read(regions@)
                    }
                    &&& exists|i: int|
                        {
                            &&& 0 <= i < old(self)@.writes.len()
                            &&& regions_conflict(regions@, (#[trigger] old(self)@.writes[i]).regions)
                            &&& forall|l: int|
                                0 <= l < i ==> !regions_conflict(
                                    regions@,
                                    (#[trigger] old(self)@.writes[l]).regions,
                                )
                            &&& final(self)@.writes == old(self)@.writes.update(
                                i,
                                HolderView {
                                    queue: old(self)@.writes[i].queue.push(k),
                                    ..old(self)@.writes[i]
                                },
                            )
                            &&& final(self)@.reads == old(self)@.reads
                        } || exists|i: int|
                        {
                            &&& is_write
                            &&& !old(self)@.blocks_read(regions@)
                            &&& 0 <= i < old(self)@.reads.len()
                            &&& regions_conflict(regions@, (#[trigger] old(self)@.reads[i]).regions)
                            &&& forall|l: int|
                                0 <= l < i ==> !regions_conflict(
                                    regions@,
                                    (#[trigger] old(self)@.reads[l]).regions,
                                )
                            &&& final(self)@.reads == old(self)@.reads.update(
                                i,
                                HolderView {
                                    queue: old(self)@.reads[i].queue.push(k),
                                    ..old(self)@.reads[i]
                                },
                            )
                            &&& final(self)@.writes == old(self)@.writes
                        }
                },
                LockAttempt::Refused => {
                    &&& !blocking
                    &&& if is_write {
                        old(self)@.blocks_write(regions@)
                    } else {
                        old(self)@.blocks_read(regions@)
                    }
                    &&& final(self)@ == old(self)@
                },
            },
    {
        let write_conflict = Self::find_conflict(&self.write, regions);
        let read_conflict = if is_write && write_conflict.is_none() {
            Self::find_conflict(&self.read, regions)
        } else {
            None
        };
        match (write_conflict, read_conflict) {
            (None, None) => {
                let key = LockKey { id: self.lock_id, exclusive: is_write };
                let holder = Holder {
                    key,
                    regions: Self::copy_rects(regions),
                    queue: Vec::new(),
                };
                proof {
                    lemma_wf_after_acquire(self@, key, regions@, is_write);
                }
                self.lock_id = self.lock_id + 1;
                if is_write {
                    self.write.push(holder);
                } else {
                    self.read.push(holder);
                }
                proof {
                    if is_write {
                        assert(self@ =~~= old(self)@.with_write(key, regions@));
                        assert(self@ == old(self)@.with_write(key, regions@));
                    } else {
                        assert(self@ =~~= old(self)@.with_read(key, regions@));
                        assert(self@ == old(self)@.with_read(key, regions@));
                    }
                    assert(self@.wf());
                }
                LockAttempt::Acquired(Guard { key })
            },
            (Some(i), _) => {
                if blocking {
                    let key = LockKey { id: self.lock_id, exclusive: is_write };
                    self.lock_id = self.lock_id + 1;
                    self.pending = self.pending + 1;
                    let mut holder = self.write.remove(i);
                    holder.queue.push(key);
                    self.write.insert(i, holder);
                    proof {
                        assert(self@.writes =~~= old(self)@.writes.update(
                            i as int,
                            HolderView {
                                queue: old(self)@.writes[i as int].queue.push(key),
                                ..old(self)@.writes[i as int]
                            },
                        ));
                        assert(self@.reads =~~= old(self)@.reads);
                        assert(self@.wf());
                    }
                    LockAttempt::Queued(key)
                } else {
                    proof {
                        assert(self@.writes[i as int] == self.write@[i as int]@);
                        assert(self@.blocks_read(regions@));
                    }
                    LockAttempt::Refused
                }
            },
            (None, Some(i)) => {
                if blocking {
                    let key = LockKey { id: self.lock_id, exclusive: is_write };
                    self.lock_id = self.lock_id + 1;
                    self.pending = self.pending + 1;
                    let mut holder = self.read.remove(i);
                    holder.queue.push(key);
                    self.read.insert(i, holder);
                    proof {
                        assert(self@.reads =~~= old(self)@.reads.update(
                            i as int,
                            HolderView {
                                queue: old(self)@.reads[i as int].queue.push(key),
                                ..old(self)@.reads[i as int]
                            },
                        ));
                        assert(self@.writes =~~= old(self)@.writes);
                        assert(self@.wf());
                    }
                    LockAttempt::Queued(key)
                } else {
                    proof {
                        assert(self@.reads[i as int] == self.read@[i as int]@);
                        assert(self@.blocks_write(regions@));
                    }
                    LockAttempt::Refused
                }
            },
        }
    }
}


impl Lock {
    /// The index of the holder in `holders` that owns `key`, if any.
    fn find_key(holders: &Vec<Holder>, key: LockKey) -> (res: Option<usize>)
        ensures
            match res {
                Some(i) => i < holders@.len() && holders@[i as int]@.key == key,
                None => forall|j: int|
                    0 <= j < holders@.len() ==> (#[trigger] holders@[j])@.key != key,
            },
    {
        let mut i: usize = 0;
        while i < holders.len()
            invariant
                i <= holders.len(),
                forall|j: int| 0 <= j < i ==> (#[trigger] holders@[j])@.key != key,
            decreases holders.len() - i,
        {
            if holders[i].key.id == key.id && holders[i].key.exclusive == key.exclusive {
                return Some(i);
            }
            i += 1;
        }
        None
    }

    /// Blocking shared acquisition. In this sequential core a conflicting
    /// request would never be granted, so the caller must know the lock is
    /// free of conflicting exclusive holders; the concurrent embedding
    /// instead loops over [`Lock::lock_region`] and parks on a queued key.
    pub fn read_region(&mut self, regions: &Vec<Rect>) -> (g: Guard)
        requires
            old(self)@.wf(),
            old(self)@.next_id < usize::MAX,
            !old(self)@.blocks_read(regions@),
        ensures
            final(self)@.wf(),
            g.key.id == old(self)@.next_id,
            !g.key.exclusive,
            final(self)@ == old(self)@.with_read(g.key, regions@),
    {
        let r = self.lock_region(regions, false, true);
        match r {
            LockAttempt::Acquired(g) => g,
            _ => vstd::pervasive::unreached(),
        }
    }

    /// Non-blocking shared acquisition: a guard exactly when no active
    /// exclusive holder overlaps `regions`, else `None` with the lock
    /// unchanged.
    pub fn try_read_region(&mut self, regions: &Vec<Rect>) -> (g: Option<Guard>)
        requires
            old(self)@.wf(),
            old(self)@.next_id < usize::MAX,
        ensures
            final(self)@.wf(),
            match g {
                Some(guard) => {
                    &&& !old(self)@.blocks_read(regions@)
                    &&& guard.key.id == old(self)@.next_id
                    &&& !guard.key.exclusive
                    &&& final(self)@ == old(self)@.with_read(guard.key, regions@)
                },
                None => old(self)@.blocks_read(regions@) && final(self)@ == old(self)@,
            },
    {
        let r = self.lock_region(regions, false, false);
        match r {
            LockAttempt::Acquired(g) => Some(g),
            LockAttempt::Refused => None,
            LockAttempt::Queued(_) => vstd::pervasive::unreached(),
        }
    }

    /// Blocking exclusive acquisition; see [`Lock::read_region`] for the
    /// sequential reading of "blocking".
    pub fn write_region(&mut self, regions: &Vec<Rect>) -> (g: Guard)
        requires
            old(self)@.wf(),
            old(self)@.next_id < usize::MAX,
            !old(self)@.blocks_write(regions@),
        ensures
            final(self)@.wf(),
            g.key.id == old(self)@.next_id,
            g.key.exclusive,
            final(self)@ == old(self)@.with_write(g.key, regions@),
    {
        let r = self.lock_region(regions, true, true);
        match r {
            LockAttempt::Acquired(g) => g,
            _ => vstd::pervasive::unreached(),
        }
    }

    /// Non-blocking exclusive acquisition: a guard exactly when no active
    /// holder of either kind overlaps `regions`, else `None` with the lock
    /// unchanged.
    pub fn try_write_region(&mut self, regions: &Vec<Rect>) -> (g: Option<Guard>)
        requires
            old(self)@.wf(),
            old(self)@.next_id < usize::MAX,
        ensures
            final(self)@.wf(),
            match g {
                Some(guard) => {
                    &&& !old(self)@.blocks_write(regions@)
                    &&& guard.key.id == old(self)@.next_id
                    &&& guard.key.exclusive
                    &&& final(self)@ == old(self)@.with_write(guard.key, regions@)
                },
                None => old(self)@.blocks_write(regions@) && final(self)@ == old(self)@,
            },
    {
        let r = self.lock_region(regions, true, false);
        match r {
            LockAttempt::Acquired(g) => Some(g),
            LockAttempt::Refused => None,
            LockAttempt::Queued(_) => vstd::pervasive::unreached(),
        }
    }

    /// Release a guard. The holder owning the guard's key is removed and the
    /// keys queued on it are returned, for the embedding program to wake.
    /// When the last holder leaves, the serial counter restarts from zero.
    pub fn unlock_region(&mut self, guard: Guard) -> (woken: Vec<LockKey>)
        requires
            old(self)@.wf(),
            old(self)@.holds(guard.key),
        ensures
            final(self)@.wf(),
            final(self)@.pending == old(self)@.pending,
            final(self)@.next_id == if final(self)@.writes.len() == 0 && final(self)@.reads.len()
                == 0 && final(self)@.pending == 0 {
                0
            } else {
                old(self)@.next_id
            },
            guard.key.exclusive ==> exists|i: int|
                {
                    &&& 0 <= i < old(self)@.writes.len()
                    &&& (#[trigger] old(self)@.writes[i]).key == guard.key
                    &&& final(self)@.writes == old(self)@.writes.remove(i)
                    &&& woken@ == old(self)@.writes[i].queue
                    &&& final(self)@.reads == old(self)@.reads
                },
            !guard.key.exclusive ==> exists|i: int|
                {
                    &&& 0 <= i < old(self)@.reads.len()
                    &&& (#[trigger] old(self)@.reads[i]).key == guard.key
                    &&& final(self)@.reads == old(self)@.reads.remove(i)
                    &&& woken@ == old(self)@.reads[i].queue
                    &&& final(self)@.writes == old(self)@.writes
                },
    {
        if guard.key.exclusive {
            let found = Self::find_key(&self.write, guard.key);
            match found {
                Some(i) => {
                    let holder = self.write.remove(i);
                    if self.write.len() == 0 && self.read.len() == 0 && self.pending == 0 {
                        self.lock_id = 0;
                    }
                    proof {
                        assert(self@.writes =~= old(self)@.writes.remove(i as int));
                        assert(self@.reads =~= old(self)@.reads);
                        lemma_wf_after_remove(old(self)@, true, i as int, self@.next_id);
                        assert(old(self)@.writes[i as int] == old(self).write@[i as int]@);
                        assert({
                            &&& 0 <= i < old(self)@.writes.len()
                            &&& old(self)@.writes[i as int].key == guard.key
                            &&& self@.writes == old(self)@.writes.remove(i as int)
                            &&& holder.queue@ == old(self)@.writes[i as int].queue
                            &&& self@.reads == old(self)@.reads
                        });
                    }
                    holder.queue
                },
                None => vstd::pervasive::unreached(),
            }
        } else {
            let found = Self::find_key(&self.read, guard.key);
            match found {
                Some(i) => {
                    let holder = self.read.remove(i);
                    if self.write.len() == 0 && self.read.len() == 0 && self.pending == 0 {
                        self.lock_id = 0;
                    }
                    proof {
                        assert(self@.reads =~= old(self)@.reads.remove(i as int));
                        assert(self@.writes =~= old(self)@.writes);
                        lemma_wf_after_remove(old(self)@, false, i as int, self@.next_id);
                        assert(old(self)@.reads[i as int] == old(self).read@[i as int]@);
                        assert({
                            &&& 0 <= i < old(self)@.reads.len()
                            &&& old(self)@.reads[i as int].key == guard.key
                            &&& self@.reads == old(self)@.reads.remove(i as int)
                            &&& holder.queue@ == old(self)@.reads[i as int].queue
                            &&& self@.writes == old(self)@.writes
                        });
                    }
                    holder.queue
                },
                None => vstd::pervasive::unreached(),
            }
        }
    }
}

impl Lock {
    /// The embedding calls this when a queued acquisition resumes, after
    /// its thread has returned from parking: the acquisition is no longer
    /// pending. Until every queued acquisition has resumed, the serial
    /// counter is not reset, so a fresh key can never reuse the id — and
    /// with it the parking address — of a key whose thread may still be
    /// parked.
    pub fn retire_pending(&mut self)
        requires
            old(self)@.wf(),
        ensures
            final(self)@.wf(),
            final(self)@.pending == if old(self)@.pending > 0 {
                old(self)@.pending - 1
            } else {
                0
            },
            final(self)@.writes == old(self)@.writes,
            final(self)@.reads == old(self)@.reads,
            final(self)@.next_id == old(self)@.next_id,
    {
        if self.pending > 0 {
            self.pending = self.pending - 1;
        }
        proof {
            assert(self@.writes == old(self)@.writes);
            assert(self@.reads == old(self)@.reads);
            assert(self@.wf());
        }
    }
}

/// Removing one holder preserves well-formedness, for any new serial
/// counter at least as large as every remaining holder's id.
proof fn lemma_wf_after_remove(v: LockView, exclusive: bool, i: int, next_id: int)
    requires
        v.wf(),
        exclusive ==> 0 <= i < v.writes.len(),
        !exclusive ==> 0 <= i < v.reads.len(),
        next_id == v.next_id || next_id == 0,
        next_id == 0 ==> v.pending == 0 && (if exclusive {
            v.writes.len() == 1 && v.reads.len() == 0
        } else {
            v.reads.len() == 1 && v.writes.len() == 0
        }),
    ensures
        exclusive ==> (LockView {
            writes: v.writes.remove(i),
            reads: v.reads,
            pending: v.pending,
            next_id,
        }).wf(),
        !exclusive ==> (LockView {
            writes: v.writes,
            reads: v.reads.remove(i),
            pending: v.pending,
            next_id,
        }).wf(),
{
    if exclusive {
        let w = LockView { writes: v.writes.remove(i), reads: v.reads, pending: v.pending, next_id };
        assert(forall|j: int|
            0 <= j < w.writes.len() ==> #[trigger] w.writes[j] == (if j < i {
                v.writes[j]
            } else {
                v.writes[j + 1]
            }));
        assert(w.wf());
    } else {
        let w = LockView { writes: v.writes, reads: v.reads.remove(i), pending: v.pending, next_id };
        assert(forall|j: int|
            0 <= j < w.reads.len() ==> #[trigger] w.reads[j] == (if j < i {
                v.reads[j]
            } else {
                v.reads[j + 1]
            }));
        assert(w.wf());
    }
}

/// Acquiring and then releasing a shared guard is a round trip: the holder
/// lists return to exactly what they were, so an exclusive attempt on the
/// same regions succeeds after the round trip exactly when it would have
/// succeeded before it.
pub proof fn lemma_read_release_roundtrip(v: LockView, key: LockKey, regions: Seq<Rect>)
    ensures
        v.with_read(key, regions).reads.remove(v.reads.len() as int) == v.reads,
        v.with_read(key, regions).writes == v.writes,
        v.with_write(key, regions).writes.remove(v.writes.len() as int) == v.writes,
        v.with_write(key, regions).reads == v.reads,
{
    assert(v.with_read(key, regions).reads.remove(v.reads.len() as int) =~= v.reads);
    assert(v.with_write(key, regions).writes.remove(v.writes.len() as int) =~= v.writes);
}


} // verus!
