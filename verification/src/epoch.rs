//! Epoch-based deferred reclamation over arena indices.
//!
//! A queue that unlinks a node cannot hand its storage out for reuse at
//! once: another participant may still hold a reference it loaded before
//! the unlink. The ledger here defers that hand-out. Participants hold
//! guard slots; a pinned guard records the epoch current at the moment of
//! pinning, and while it stays pinned it may dereference anything it loaded
//! since. A retired index is stamped with the epoch of its retirement, and
//! [`Reclaimer::collect`] releases it only once every pinned guard was
//! pinned strictly after that stamp — so no guard can still hold a
//! reference taken before the retirement.

use vstd::prelude::*;

verus! {

/// The reclamation ledger: a global epoch, one guard slot per registered
/// participant, and the indices retired but not yet released.
pub struct Reclaimer {
    epoch: u64,
    guards: Vec<Option<u64>>,
    retired: Vec<(usize, u64)>,
}

impl Reclaimer {
    /// The current global epoch.
    pub closed spec fn current_epoch(self) -> u64 {
        self.epoch
    }

    /// The guard slots: `Some(e)` is a guard pinned at epoch `e`.
    pub closed spec fn guards(self) -> Seq<Option<u64>> {
        self.guards@
    }

    /// The retired indices, each with the epoch of its retirement.
    pub closed spec fn retired(self) -> Seq<(usize, u64)> {
        self.retired@
    }

    /// Whether guard slot `i` is pinned.
    pub open spec fn pinned(self, i: int) -> bool {
        0 <= i < self.guards().len() && self.guards()[i] is Some
    }

    /// The epoch at which guard slot `i` was pinned.
    pub open spec fn pin_epoch(self, i: int) -> u64 {
        self.guards()[i]->Some_0
    }

    /// An index retired at epoch `e` may be released: every pinned guard
    /// was pinned strictly after `e`, so none can hold a reference loaded
    /// before the retirement.
    pub open spec fn freeable(self, e: u64) -> bool {
        forall|i: int| #[trigger] self.pinned(i) ==> e < self.pin_epoch(i)
    }

    /// Whether some retirement record of `rs` names the index `x`.
    pub open spec fn names_index(rs: Seq<(usize, u64)>, x: usize) -> bool {
        exists|j: int| 0 <= j < rs.len() && rs[j].0 == x
    }

    /// The test under which a retirement record must stay deferred.
    pub open spec fn keep_test(self) -> spec_fn((usize, u64)) -> bool {
        |r: (usize, u64)| !self.freeable(r.1)
    }

    /// The test under which a retirement record may be released.
    pub open spec fn release_test(self) -> spec_fn((usize, u64)) -> bool {
        |r: (usize, u64)| self.freeable(r.1)
    }

    /// Of the retirement records `rs`, those that must stay deferred under
    /// this ledger's guard state.
    pub open spec fn kept_of(self, rs: Seq<(usize, u64)>) -> Seq<(usize, u64)> {
        rs.filter(self.keep_test())
    }

    /// Of the retirement records `rs`, the indices that may be released
    /// under this ledger's guard state, in retirement order.
    pub open spec fn released_of(self, rs: Seq<(usize, u64)>) -> Seq<usize> {
        rs.filter(self.release_test()).map_values(|r: (usize, u64)| r.0)
    }

    /// An empty ledger: epoch zero, no guards, nothing retired.
    pub fn new() -> (r: Reclaimer)
        ensures
            r.current_epoch() == 0,
            r.guards() == Seq::<Option<u64>>::empty(),
            r.retired() == Seq::<(usize, u64)>::empty(),
    {
        Reclaimer { epoch: 0, guards: Vec::new(), retired: Vec::new() }
    }

    /// Hands a new, unpinned guard slot to a participant. The slot is
    /// reusable for the participant's lifetime.
    pub fn register(&mut self) -> (id: usize)
        ensures
            id == old(self).guards().len(),
            final(self).guards() == old(self).guards().push(None),
            final(self).current_epoch() == old(self).current_epoch(),
            final(self).retired() == old(self).retired(),
    {
        let id = self.guards.len();
        self.guards.push(None);
        id
    }

    /// Pins guard `id` at the current epoch. From here until the matching
    /// [`Self::unpin`], references the participant loads stay valid.
    pub fn pin(&mut self, id: usize)
        requires
            id < old(self).guards().len(),
        ensures
            final(self).guards() == old(self).guards().update(
                id as int,
                Some(old(self).current_epoch()),
            ),
            final(self).current_epoch() == old(self).current_epoch(),
            final(self).retired() == old(self).retired(),
    {
        let e = self.epoch;
        self.guards.set(id, Some(e));
    }

    /// Unpins guard `id`: the participant holds no references any more.
    pub fn unpin(&mut self, id: usize)
        requires
            id < old(self).guards().len(),
        ensures
            final(self).guards() == old(self).guards().update(id as int, None),
            final(self).current_epoch() == old(self).current_epoch(),
            final(self).retired() == old(self).retired(),
    {
        self.guards.set(id, None);
    }

    /// Retires `node`: it is unreachable for new loads, but may still be
    /// referenced by guards pinned at or before the current epoch, so its
    /// release is deferred.
    pub fn retire(&mut self, node: usize)
        ensures
            final(self).retired() == old(self).retired().push(
                (node, old(self).current_epoch()),
            ),
            final(self).guards() == old(self).guards(),
            final(self).current_epoch() == old(self).current_epoch(),
    {
        let e = self.epoch;
        self.retired.push((node, e));
    }

    /// How many retirement records the ledger holds.
    pub fn retired_count(&self) -> (n: usize)
        ensures
            n == self.retired().len(),
    {
        self.retired.len()
    }

    /// How many guard slots have been handed out.
    pub fn guard_count(&self) -> (n: usize)
        ensures
            n == self.guards().len(),
    {
        self.guards.len()
    }

    /// Advances the global epoch exactly when every pinned guard has
    /// caught up with it (and the epoch counter has room); otherwise
    /// leaves it alone. Best effort: a `false` result is not a failure,
    /// later calls may succeed.
    pub fn try_advance(&mut self) -> (advanced: bool)
        ensures
            final(self).guards() == old(self).guards(),
            final(self).retired() == old(self).retired(),
            advanced == (old(self).current_epoch() < u64::MAX
                && (forall|i: int| #[trigger] old(self).pinned(i)
                    ==> old(self).pin_epoch(i) == old(self).current_epoch())),
            advanced ==> final(self).current_epoch() == old(self).current_epoch() + 1,
            !advanced ==> final(self).current_epoch() == old(self).current_epoch(),
    {
        if self.epoch == u64::MAX {
            return false;
        }
        let n = self.guards.len();
        let mut i: usize = 0;
        while i < n
            invariant
                i <= n,
                n == self.guards().len(),
                self == old(self),
                self.current_epoch() < u64::MAX,
                forall|j: int| 0 <= j < i && #[trigger] self.pinned(j)
                    ==> self.pin_epoch(j) == self.current_epoch(),
            decreases n - i,
        {
            match self.guards[i] {
                Some(g) => {
                    if g != self.epoch {
                        proof {
                            assert(self.pinned(i as int));
                        }
                        return false;
                    }
                },
                None => {},
            }
            i = i + 1;
        }
        self.epoch = self.epoch + 1;
        true
    }

    /// Whether an index retired at epoch `e` may be released now.
    fn is_safe(&self, e: u64) -> (b: bool)
        ensures
            b == self.freeable(e),
    {
        let n = self.guards.len();
        let mut i: usize = 0;
        while i < n
            invariant
                i <= n,
                n == self.guards().len(),
                forall|j: int| 0 <= j < i && #[trigger] self.pinned(j)
                    ==> e < self.pin_epoch(j),
            decreases n - i,
        {
            match self.guards[i] {
                Some(g) => {
                    if e >= g {
                        assert(self.pinned(i as int));
                        return false;
                    }
                },
                None => {},
            }
            i = i + 1;
        }
        true
    }

    /// Releases every retired index whose retirement epoch lies strictly
    /// below all pinned guards, and keeps the rest. The released indices
    /// are safe to reuse: no pinned guard could have loaded a reference to
    /// them before their retirement. Nothing is released twice and nothing
    /// is dropped: released and kept together are exactly what was retired.
    pub fn collect(&mut self) -> (freed: Vec<usize>)
        ensures
            final(self).guards() == old(self).guards(),
            final(self).current_epoch() == old(self).current_epoch(),
            final(self).retired() == old(self).kept_of(old(self).retired()),
            freed@ == old(self).released_of(old(self).retired()),
    {
        let ghost orig = *self;
        let mut pending: Vec<(usize, u64)> = Vec::new();
        core::mem::swap(&mut pending, &mut self.retired);
        let mut freed: Vec<usize> = Vec::new();
        let n = pending.len();
        let mut k: usize = 0;
        while k < n
            invariant
                k <= n,
                n == pending@.len(),
                pending@ == orig.retired(),
                self.guards() == orig.guards(),
                self.current_epoch() == orig.current_epoch(),
                self.retired() == orig.kept_of(orig.retired().take(k as int)),
                freed@ == orig.released_of(orig.retired().take(k as int)),
            decreases n - k,
        {
            let (node, e) = pending[k];
            proof {
                reveal(Seq::filter);
                assert(orig.retired().take(k as int + 1).drop_last()
                    =~= orig.retired().take(k as int));
                assert(orig.retired().take(k as int + 1).last() == (node, e));
            }
            let safe = self.is_safe(e);
            proof {
                if orig.freeable(e) {
                    assert forall|i: int| #[trigger] self.pinned(i) implies e < self.pin_epoch(i) by {
                        assert(orig.pinned(i));
                    }
                }
                if self.freeable(e) {
                    assert forall|i: int| #[trigger] orig.pinned(i) implies e < orig.pin_epoch(i) by {
                        assert(self.pinned(i));
                    }
                }
                assert(self.freeable(e) == orig.freeable(e));
            }
            if safe {
                freed.push(node);
                proof {
                    assert(freed@ =~= orig.released_of(orig.retired().take(k as int + 1)));
                }
            } else {
                self.retired.push((node, e));
                proof {
                    assert(self.retired()
                        =~= orig.kept_of(orig.retired().take(k as int + 1)));
                }
            }
            k = k + 1;
        }
        proof {
            assert(orig.retired().take(n as int) =~= orig.retired());
        }
        freed
    }

    /// A sweep partitions the ledger. When the retired indices were
    /// distinct, the indices still deferred and the indices released are
    /// each free of duplicates, no index is both deferred and released,
    /// and every one of them was among the retired indices. With this, an
    /// index is released at most once, and only after it was retired.
    pub proof fn lemma_sweep_partitions(self, rs: Seq<(usize, u64)>)
        requires
            forall|i: int, j: int| 0 <= i < j < rs.len() ==> rs[i].0 != rs[j].0,
        ensures
            forall|k: int| 0 <= k < self.kept_of(rs).len()
                ==> rs.contains(#[trigger] self.kept_of(rs)[k]),
            forall|k: int| 0 <= k < self.released_of(rs).len()
                ==> Self::names_index(rs, #[trigger] self.released_of(rs)[k]),
            forall|k1: int, k2: int| 0 <= k1 < k2 < self.kept_of(rs).len()
                ==> #[trigger] self.kept_of(rs)[k1].0 != #[trigger] self.kept_of(rs)[k2].0,
            forall|k1: int, k2: int| 0 <= k1 < k2 < self.released_of(rs).len()
                ==> #[trigger] self.released_of(rs)[k1] != #[trigger] self.released_of(rs)[k2],
            forall|k1: int, k2: int|
                0 <= k1 < self.kept_of(rs).len() && 0 <= k2 < self.released_of(rs).len()
                ==> #[trigger] self.kept_of(rs)[k1].0 != #[trigger] self.released_of(rs)[k2],
    {
        let kept = self.kept_of(rs);
        let freed_recs = rs.filter(self.release_test());
        let released = self.released_of(rs);
        lemma_filter_subset(rs, self.keep_test());
        lemma_filter_subset(rs, self.release_test());
        lemma_filter_no_dup(rs, self.keep_test());
        lemma_filter_no_dup(rs, self.release_test());
        assert forall|k: int| 0 <= k < released.len()
            implies Self::names_index(rs, #[trigger] released[k]) by {
            assert(rs.contains(freed_recs[k]));
            let j = choose|j: int| 0 <= j < rs.len() && rs[j] == freed_recs[k];
            assert(rs[j].0 == released[k]);
        }
        assert forall|k1: int, k2: int| 0 <= k1 < k2 < kept.len()
            implies #[trigger] kept[k1].0 != #[trigger] kept[k2].0 by {
            if kept[k1].0 == kept[k2].0 {
                Self::entries_with_one_index(rs, kept[k1], kept[k2]);
            }
        }
        assert forall|k1: int, k2: int| 0 <= k1 < k2 < released.len()
            implies #[trigger] released[k1] != #[trigger] released[k2] by {
            assert(released[k1] == freed_recs[k1].0);
            assert(released[k2] == freed_recs[k2].0);
            if freed_recs[k1].0 == freed_recs[k2].0 {
                Self::entries_with_one_index(rs, freed_recs[k1], freed_recs[k2]);
            }
        }
        assert forall|k1: int, k2: int|
            0 <= k1 < kept.len() && 0 <= k2 < released.len()
            implies #[trigger] kept[k1].0 != #[trigger] released[k2] by {
            assert(rs.contains(freed_recs[k2]));
            if kept[k1].0 == released[k2] {
                Self::entries_with_one_index(rs, kept[k1], freed_recs[k2]);
                assert(self.keep_test()(kept[k1]));
                assert(self.release_test()(freed_recs[k2]));
            }
        }
    }

    /// The defining reclamation guarantee: a pinned guard blocks the
    /// release of every index retired at or after its pin epoch. While
    /// the guard stays pinned, no sweep hands such an index out for
    /// reuse, so a reference the guard's holder loaded before the
    /// retirement never dangles.
    pub proof fn lemma_pinned_guard_blocks_release(self, i: int, k: int)
        requires
            forall|i1: int, i2: int| 0 <= i1 < i2 < self.retired().len()
                ==> self.retired()[i1].0 != self.retired()[i2].0,
            self.pinned(i),
            0 <= k < self.retired().len(),
            self.pin_epoch(i) <= self.retired()[k].1,
        ensures
            forall|m: int| 0 <= m < self.released_of(self.retired()).len()
                ==> #[trigger] self.released_of(self.retired())[m] != self.retired()[k].0,
    {
        let rs = self.retired();
        let released = self.released_of(rs);
        let freed_recs = rs.filter(self.release_test());
        lemma_filter_subset(rs, self.release_test());
        assert forall|m: int| 0 <= m < released.len()
            implies #[trigger] released[m] != rs[k].0 by {
            if released[m] == rs[k].0 {
                rs.lemma_filter_pred(self.release_test(), m);
                assert(rs.contains(freed_recs[m]));
                assert(rs.contains(rs[k]));
                Self::entries_with_one_index(rs, freed_recs[m], rs[k]);
                assert(self.freeable(rs[k].1));
                assert(rs[k].1 < self.pin_epoch(i));
            }
        }
    }

    /// Two retirement records held by a ledger whose indices are distinct
    /// and whose index components agree are the same record.
    proof fn entries_with_one_index(rs: Seq<(usize, u64)>, a: (usize, u64), b: (usize, u64))
        requires
            forall|i: int, j: int| 0 <= i < j < rs.len() ==> rs[i].0 != rs[j].0,
            rs.contains(a),
            rs.contains(b),
            a.0 == b.0,
        ensures
            a == b,
    {
        let i = choose|i: int| 0 <= i < rs.len() && rs[i] == a;
        let j = choose|j: int| 0 <= j < rs.len() && rs[j] == b;
        if i != j {
            assert(rs[i].0 != rs[j].0);
        }
    }
}

/// What a filter keeps, its source contains.
proof fn lemma_filter_subset<A>(s: Seq<A>, p: spec_fn(A) -> bool)
    ensures
        forall|k: int| 0 <= k < s.filter(p).len() ==> s.contains(#[trigger] s.filter(p)[k]),
    decreases s.len(),
{
    reveal(Seq::filter);
    if s.len() > 0 {
        let prefix = s.drop_last();
        lemma_filter_subset(prefix, p);
        assert forall|k: int| 0 <= k < s.filter(p).len()
            implies s.contains(#[trigger] s.filter(p)[k]) by {
            if k < prefix.filter(p).len() {
                assert(prefix.contains(prefix.filter(p)[k]));
                let j = choose|j: int| 0 <= j < prefix.len() && prefix[j] == prefix.filter(p)[k];
                assert(s[j] == s.filter(p)[k]);
            } else {
                assert(s.filter(p)[k] == s.last());
            }
        }
    }
}

/// A filter of a duplicate-free sequence is duplicate-free.
proof fn lemma_filter_no_dup<A>(s: Seq<A>, p: spec_fn(A) -> bool)
    requires
        forall|i: int, j: int| 0 <= i < j < s.len() ==> s[i] != s[j],
    ensures
        forall|k1: int, k2: int| 0 <= k1 < k2 < s.filter(p).len()
            ==> #[trigger] s.filter(p)[k1] != #[trigger] s.filter(p)[k2],
    decreases s.len(),
{
    reveal(Seq::filter);
    if s.len() > 0 {
        let prefix = s.drop_last();
        assert(forall|i: int, j: int| 0 <= i < j < prefix.len()
            ==> prefix[i] == s[i] && prefix[j] == s[j]);
        lemma_filter_no_dup(prefix, p);
        lemma_filter_subset(prefix, p);
        assert forall|k1: int, k2: int| 0 <= k1 < k2 < s.filter(p).len()
            implies #[trigger] s.filter(p)[k1] != #[trigger] s.filter(p)[k2] by {
            if k2 >= prefix.filter(p).len() {
                assert(s.filter(p)[k2] == s.last());
                assert(prefix.contains(prefix.filter(p)[k1]));
                let j = choose|j: int| 0 <= j < prefix.len() && prefix[j] == prefix.filter(p)[k1];
                assert(s[j] == s.filter(p)[k1]);
                assert(s[j] != s.last());
            }
        }
    }
}

} // verus!
