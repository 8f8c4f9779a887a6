//! Per-file version history.
//!
//! A file is rooted at an immutable metadata record whose id never
//! changes.  Every update appends a fresh immutable record and an update
//! pointer from the root to it, carrying the write's timestamp.  The
//! latest version is a pure function of whatever pointer set a replica
//! holds: the pointer with the greatest timestamp wins, ties broken by
//! the greater target id, and with no pointers the root itself is latest.

use vstd::prelude::*;

use crate::assoc::{
    assoc_map, distinct_keys, lemma_assoc_map_contains, lemma_assoc_map_index,
    lemma_assoc_map_push, lemma_assoc_map_remove,
};
use crate::metadata::{FileMetadata, MetadataView};

verus! {

/// An assertion that `target` supersedes the file rooted at `root`,
/// made at `timestamp`.
#[derive(Clone, Copy, Debug, PartialEq, Eq, Structural)]
pub struct UpdatePointer {
    pub root: u64,
    pub target: u64,
    pub timestamp: u64,
}

/// The tie-break order of resolution: a later timestamp wins, and among
/// equal timestamps the greater target id.
pub open spec fn better_pointer(a: UpdatePointer, b: UpdatePointer) -> bool {
    a.timestamp > b.timestamp || (a.timestamp == b.timestamp && a.target > b.target)
}

/// The winning update pointer of `root`, if any.
pub open spec fn spec_latest_ptr(ps: Seq<UpdatePointer>, root: u64) -> Option<UpdatePointer>
    decreases ps.len(),
{
    if ps.len() == 0 {
        None
    } else {
        let rest = spec_latest_ptr(ps.drop_last(), root);
        let p = ps.last();
        if p.root != root {
            rest
        } else {
            match rest {
                None => Some(p),
                Some(q) => if better_pointer(p, q) {
                    Some(p)
                } else {
                    Some(q)
                },
            }
        }
    }
}

/// The id the root resolves to: the winning pointer's target, or the
/// root itself when no pointer exists.
pub open spec fn spec_latest(ps: Seq<UpdatePointer>, root: u64) -> u64 {
    match spec_latest_ptr(ps, root) {
        None => root,
        Some(p) => p.target,
    }
}

/// What a root resolves to in a record store: the latest record, absent
/// when it (in particular, a deleted file's whole chain) is gone.
pub open spec fn spec_resolve(
    recs: Map<u64, MetadataView>,
    ps: Seq<UpdatePointer>,
    root: u64,
) -> Option<MetadataView> {
    let lat = spec_latest(ps, root);
    if recs.contains_key(lat) {
        Some(recs[lat])
    } else {
        None
    }
}

/// A pointer with the newest timestamp and the greatest target wins.
pub proof fn lemma_latest_after_push(ps: Seq<UpdatePointer>, root: u64, p: UpdatePointer)
    requires
        p.root == root,
        forall|i: int|
            0 <= i < ps.len() && (#[trigger] ps[i]).root == root ==> ps[i].timestamp <= p.timestamp
                && ps[i].target < p.target,
    ensures
        spec_latest(ps.push(p), root) == p.target,
{
    lemma_latest_ptr_max(ps, root);
    assert(ps.push(p).drop_last() =~= ps);
    assert(ps.push(p).last() == p);
    match spec_latest_ptr(ps, root) {
        None => {},
        Some(q) => {
            let i = choose|i: int| 0 <= i < ps.len() && #[trigger] ps[i] == q;
            assert(q.timestamp <= p.timestamp && q.target < p.target);
            assert(better_pointer(p, q));
        },
    }
}

/// The winning pointer is maximal among the root's pointers.
proof fn lemma_latest_ptr_max(ps: Seq<UpdatePointer>, root: u64)
    ensures
        match spec_latest_ptr(ps, root) {
            Some(q) => q.root == root && ps.contains(q) && forall|i: int|
                0 <= i < ps.len() && (#[trigger] ps[i]).root == root ==> !better_pointer(ps[i], q),
            None => forall|i: int| 0 <= i < ps.len() ==> (#[trigger] ps[i]).root != root,
        },
    decreases ps.len(),
{
    if ps.len() > 0 {
        let dl = ps.drop_last();
        lemma_latest_ptr_max(dl, root);
        let p = ps.last();
        match spec_latest_ptr(dl, root) {
            Some(q) => {
                let j = choose|j: int| 0 <= j < dl.len() && dl[j] == q;
                assert(ps[j] == q);
                assert(ps.contains(q));
            },
            None => {},
        }
        match spec_latest_ptr(ps, root) {
            Some(w) => {
                if p.root == root && w == p {
                    assert(ps[ps.len() - 1] == p);
                    assert(ps.contains(p));
                }
                assert forall|i: int|
                    0 <= i < ps.len() && (#[trigger] ps[i]).root == root implies !better_pointer(
                    ps[i],
                    w,
                ) by {
                    if i < ps.len() - 1 {
                        assert(dl[i] == ps[i]);
                    }
                }
            },
            None => {
                assert forall|i: int| 0 <= i < ps.len() implies (#[trigger] ps[i]).root != root by {
                    if i < ps.len() - 1 {
                        assert(dl[i] == ps[i]);
                    }
                }
            },
        }
    }
}

/// Resolution converges across replicas: two replicas holding the same
/// update pointers, in whatever arrival order, resolve every root to
/// the same latest id.
pub proof fn lemma_latest_replica_convergence(
    ps1: Seq<UpdatePointer>,
    ps2: Seq<UpdatePointer>,
    root: u64,
)
    requires
        ps1.to_multiset() == ps2.to_multiset(),
    ensures
        spec_latest(ps1, root) == spec_latest(ps2, root),
{
    broadcast use vstd::seq_lib::group_to_multiset_ensures;

    lemma_latest_ptr_max(ps1, root);
    lemma_latest_ptr_max(ps2, root);
    match (spec_latest_ptr(ps1, root), spec_latest_ptr(ps2, root)) {
        (Some(q1), Some(q2)) => {
            assert(ps1.to_multiset().count(q1) > 0);
            assert(ps2.contains(q1));
            let i = choose|i: int| 0 <= i < ps2.len() && ps2[i] == q1;
            assert(!better_pointer(ps2[i], q2));
            assert(ps2.to_multiset().count(q2) > 0);
            assert(ps1.contains(q2));
            let j = choose|j: int| 0 <= j < ps1.len() && ps1[j] == q2;
            assert(!better_pointer(ps1[j], q1));
            assert(q1.target == q2.target);
        },
        (Some(q1), None) => {
            assert(ps1.to_multiset().count(q1) > 0);
            assert(ps2.contains(q1));
            let i = choose|i: int| 0 <= i < ps2.len() && ps2[i] == q1;
            assert(false);
        },
        (None, Some(q2)) => {
            assert(ps2.to_multiset().count(q2) > 0);
            assert(ps1.contains(q2));
            let j = choose|j: int| 0 <= j < ps1.len() && ps1[j] == q2;
            assert(false);
        },
        (None, None) => {},
    }
}

/// With no pointer left for a root, it resolves to itself.
pub proof fn lemma_latest_none(ps: Seq<UpdatePointer>, root: u64)
    requires
        forall|i: int| 0 <= i < ps.len() ==> (#[trigger] ps[i]).root != root,
    ensures
        spec_latest(ps, root) == root,
{
    lemma_latest_ptr_max(ps, root);
    match spec_latest_ptr(ps, root) {
        Some(q) => {
            let i = choose|i: int| 0 <= i < ps.len() && ps[i] == q;
            assert(false);
        },
        None => {},
    }
}

/// The pointer list with every pointer of `root` removed.
pub open spec fn ptrs_without(ps: Seq<UpdatePointer>, root: u64) -> Seq<UpdatePointer>
    decreases ps.len(),
{
    if ps.len() == 0 {
        Seq::empty()
    } else {
        let rest = ptrs_without(ps.drop_last(), root);
        if ps.last().root == root {
            rest
        } else {
            rest.push(ps.last())
        }
    }
}

/// Removing a root's pointers keeps no pointer of that root, and keeps
/// every target and root below any bound the whole list was below.
pub proof fn lemma_ptrs_without_props(ps: Seq<UpdatePointer>, root: u64, bound: u64)
    requires
        forall|i: int|
            0 <= i < ps.len() ==> (#[trigger] ps[i]).target < bound && ps[i].root < bound,
    ensures
        forall|i: int|
            0 <= i < ptrs_without(ps, root).len() ==> (#[trigger] ptrs_without(ps, root)[i]).root
                != root && ptrs_without(ps, root)[i].target < bound && ptrs_without(
                ps,
                root,
            )[i].root < bound,
    decreases ps.len(),
{
    if ps.len() > 0 {
        let dl = ps.drop_last();
        assert(forall|i: int|
            0 <= i < dl.len() ==> (#[trigger] dl[i]).target < bound && dl[i].root < bound) by {
            assert forall|i: int|
                0 <= i < dl.len() implies (#[trigger] dl[i]).target < bound && dl[i].root
                < bound by {
                assert(dl[i] == ps[i]);
            }
        }
        lemma_ptrs_without_props(dl, root, bound);
        assert(ps.last().target < bound && ps.last().root < bound);
        let r = ptrs_without(ps, root);
        let restr = ptrs_without(dl, root);
        assert forall|i: int|
            0 <= i < r.len() implies (#[trigger] r[i]).root != root && r[i].target < bound
            && r[i].root < bound by {
            if i < restr.len() {
                assert(r[i] == restr[i]);
            } else {
                assert(r[i] == ps.last());
            }
        }
    }
}

/// The records a delete pass over the pointers removes, with the ids it
/// collects, in pointer order; the latest version is left for its own
/// step, and only records actually present are collected.
pub open spec fn spec_delete_scan(
    recs: Map<u64, MetadataView>,
    ps: Seq<UpdatePointer>,
    root: u64,
    lat: u64,
) -> (Map<u64, MetadataView>, Seq<u64>)
    decreases ps.len(),
{
    if ps.len() == 0 {
        (recs, Seq::empty())
    } else {
        let (m, ids) = spec_delete_scan(recs, ps.drop_last(), root, lat);
        let p = ps.last();
        if p.root == root && p.target != lat && m.contains_key(p.target) {
            (m.remove(p.target), ids.push(p.target))
        } else {
            (m, ids)
        }
    }
}

/// The record store and collected ids after a whole chain is deleted:
/// the superseded versions in pointer order, then the latest version,
/// then the root record.
pub open spec fn spec_delete_result(
    recs: Map<u64, MetadataView>,
    ps: Seq<UpdatePointer>,
    root: u64,
) -> (Map<u64, MetadataView>, Seq<u64>) {
    let lat = spec_latest(ps, root);
    let (m1, ids1) = spec_delete_scan(recs, ps, root, lat);
    let (m2, ids2) = if lat != root && m1.contains_key(lat) {
        (m1.remove(lat), ids1.push(lat))
    } else {
        (m1, ids1)
    };
    if m2.contains_key(root) {
        (m2.remove(root), ids2.push(root))
    } else {
        (m2, ids2)
    }
}

/// The versions reachable from a root through its pointers, in arrival
/// order, skipping records no longer present.
pub open spec fn spec_history_targets(
    recs: Map<u64, MetadataView>,
    ps: Seq<UpdatePointer>,
    root: u64,
) -> Seq<MetadataView>
    decreases ps.len(),
{
    if ps.len() == 0 {
        Seq::empty()
    } else {
        let rest = spec_history_targets(recs, ps.drop_last(), root);
        let p = ps.last();
        if p.root == root && recs.contains_key(p.target) {
            rest.push(recs[p.target])
        } else {
            rest
        }
    }
}

/// Every version record reachable from `root`: the root record itself,
/// then the pointer targets in arrival order.
pub open spec fn spec_history(
    recs: Map<u64, MetadataView>,
    ps: Seq<UpdatePointer>,
    root: u64,
) -> Seq<MetadataView> {
    let head: Seq<MetadataView> = if recs.contains_key(root) {
        seq![recs[root]]
    } else {
        Seq::empty()
    };
    head + spec_history_targets(recs, ps, root)
}

/// The metadata each record of a list says.
pub open spec fn meta_views(s: Seq<FileMetadata>) -> Seq<MetadataView> {
    s.map_values(|m: FileMetadata| m@)
}

/// The version chain store: an arena of immutable metadata records under
/// ids that are never reused, and the update pointers among them.
pub struct VersionChain {
    records: Vec<(u64, FileMetadata)>,
    pointers: Vec<UpdatePointer>,
    next_id: u64,
}

impl VersionChain {
    /// The record arena, as a map from id to what the record says.
    pub closed spec fn records(&self) -> Map<u64, MetadataView> {
        assoc_map(self.records@)
    }

    /// The update pointers, in arrival order.
    pub closed spec fn pointers(&self) -> Seq<UpdatePointer> {
        self.pointers@
    }

    /// The id the next stored record gets.
    pub closed spec fn next_id(&self) -> u64 {
        self.next_id
    }

    /// Ids are unique, and every id ever handed out — a record id, a
    /// pointer's target, or a pointer's root — is below `next_id`.
    pub closed spec fn wf(&self) -> bool {
        &&& distinct_keys(self.records@)
        &&& forall|i: int|
            0 <= i < self.records@.len() ==> (#[trigger] self.records@[i]).0 < self.next_id
        &&& forall|i: int|
            0 <= i < self.pointers@.len() ==> (#[trigger] self.pointers@[i]).target < self.next_id
                && self.pointers@[i].root < self.next_id
    }

    /// Well-formedness bounds every record id and pointer target below
    /// the next id to be handed out.
    pub proof fn lemma_wf_bounds(&self)
        requires
            self.wf(),
        ensures
            forall|i: int|
                0 <= i < self.pointers().len() ==> (#[trigger] self.pointers()[i]).target
                    < self.next_id() && self.pointers()[i].root < self.next_id(),
            forall|k: u64| #[trigger] self.records().contains_key(k) ==> k < self.next_id(),
    {
        assert forall|k: u64| #[trigger] self.records().contains_key(k) implies k
            < self.next_id() by {
            lemma_assoc_map_contains(self.records@, k);
            let i = choose|i: int| 0 <= i < self.records@.len() && self.records@[i].0@ == k;
            assert(self.records@[i].0 < self.next_id);
        }
    }

    /// A root that resolves to a record is an id this chain handed out.
    pub proof fn lemma_resolve_bounds(&self, root: u64)
        requires
            self.wf(),
            spec_resolve(self.records(), self.pointers(), root) is Some,
        ensures
            root < self.next_id(),
    {
        lemma_latest_ptr_max(self.pointers@, root);
        match spec_latest_ptr(self.pointers@, root) {
            Some(q) => {
                let i = choose|i: int| 0 <= i < self.pointers@.len() && self.pointers@[i] == q;
                assert(self.pointers@[i].root < self.next_id);
            },
            None => {
                self.lemma_wf_bounds();
                assert(self.records().contains_key(root));
            },
        }
    }

    pub fn new() -> (chain: VersionChain)
        ensures
            chain.wf(),
            chain.records() == Map::<u64, MetadataView>::empty(),
            chain.pointers() == Seq::<UpdatePointer>::empty(),
            chain.next_id() == 0,
    {
        let chain = VersionChain { records: Vec::new(), pointers: Vec::new(), next_id: 0 };
        proof {
            assert(chain.pointers@ =~= Seq::<UpdatePointer>::empty());
        }
        chain
    }

    /// The index of the record stored under `id`, if any.
    fn find_record(&self, id: u64) -> (r: Option<usize>)
        ensures
            match r {
                Some(i) => i < self.records@.len() && self.records@[i as int].0 == id,
                None => forall|j: int|
                    0 <= j < self.records@.len() ==> (#[trigger] self.records@[j]).0 != id,
            },
    {
        let mut i: usize = 0;
        while i < self.records.len()
            invariant
                0 <= i <= self.records@.len(),
                forall|j: int| 0 <= j < i ==> (#[trigger] self.records@[j]).0 != id,
            decreases self.records@.len() - i,
        {
            if self.records[i].0 == id {
                return Some(i);
            }
            i = i + 1;
        }
        None
    }

    /// Store the first, immutable version of a file.  The id returned is
    /// the file's permanent root identity.
    pub fn create_root(&mut self, metadata: FileMetadata) -> (id: u64)
        requires
            old(self).wf(),
            old(self).next_id() < u64::MAX,
        ensures
            final(self).wf(),
            id == old(self).next_id(),
            final(self).records() == old(self).records().insert(id, metadata@),
            final(self).pointers() == old(self).pointers(),
            final(self).next_id() == old(self).next_id() + 1,
    {
        let id = self.next_id;
        proof {
            lemma_assoc_map_push(self.records@, (id, metadata));
            assert forall|a: int, b: int|
                0 <= a < b < self.records@.push((id, metadata)).len() implies self.records@.push(
                (id, metadata),
            )[a].0@ != self.records@.push((id, metadata))[b].0@ by {
                if b < self.records@.len() {
                    assert(self.records@[a].0@ != self.records@[b].0@);
                } else {
                    assert(self.records@[a].0 < id);
                }
            }
        }
        self.records.push((id, metadata));
        self.next_id = self.next_id + 1;
        id
    }

    /// Write a new immutable version record and the update pointer from
    /// `root` to it, carrying the write's timestamp.  The root must be an
    /// id this chain has handed out.
    pub fn append_version(&mut self, root: u64, metadata: FileMetadata, now: u64) -> (id: u64)
        requires
            old(self).wf(),
            old(self).next_id() < u64::MAX,
            root < old(self).next_id(),
        ensures
            final(self).wf(),
            id == old(self).next_id(),
            final(self).records() == old(self).records().insert(id, metadata@),
            final(self).pointers() == old(self).pointers().push(
                UpdatePointer { root, target: id, timestamp: now },
            ),
            final(self).next_id() == old(self).next_id() + 1,
    {
        let id = self.next_id;
        proof {
            lemma_assoc_map_push(self.records@, (id, metadata));
            assert forall|a: int, b: int|
                0 <= a < b < self.records@.push((id, metadata)).len() implies self.records@.push(
                (id, metadata),
            )[a].0@ != self.records@.push((id, metadata))[b].0@ by {
                if b < self.records@.len() {
                    assert(self.records@[a].0@ != self.records@[b].0@);
                } else {
                    assert(self.records@[a].0 < id);
                }
            }
        }
        self.records.push((id, metadata));
        self.pointers.push(UpdatePointer { root, target: id, timestamp: now });
        self.next_id = self.next_id + 1;
        id
    }

    /// What the record under `id` says, if it is present.
    pub fn get_record(&self, id: u64) -> (r: Option<FileMetadata>)
        requires
            self.wf(),
        ensures
            match r {
                Some(m) => self.records().contains_key(id) && m@ == self.records()[id],
                None => !self.records().contains_key(id),
            },
    {
        proof {
            lemma_assoc_map_contains(self.records@, id);
        }
        match self.find_record(id) {
            Some(i) => {
                proof {
                    lemma_assoc_map_index(self.records@, i as int);
                }
                Some(self.records[i].1.clone())
            },
            None => None,
        }
    }

    /// The id `root` resolves to: the target of the update pointer with
    /// the greatest timestamp (ties broken by the greater target id), or
    /// `root` itself when it has no pointer.
    pub fn latest(&self, root: u64) -> (r: u64)
        ensures
            r == spec_latest(self.pointers(), root),
    {
        let mut best: Option<UpdatePointer> = None;
        let mut i: usize = 0;
        proof {
            assert(self.pointers@.take(0) =~= Seq::<UpdatePointer>::empty());
        }
        while i < self.pointers.len()
            invariant
                0 <= i <= self.pointers@.len(),
                best == spec_latest_ptr(self.pointers@.take(i as int), root),
            decreases self.pointers@.len() - i,
        {
            let p = self.pointers[i];
            proof {
                assert(self.pointers@.take(i + 1).drop_last() =~= self.pointers@.take(i as int));
                assert(self.pointers@.take(i + 1).last() == p);
            }
            if p.root == root {
                best = match best {
                    None => Some(p),
                    Some(q) => {
                        if p.timestamp > q.timestamp || (p.timestamp == q.timestamp && p.target
                            > q.target) {
                            Some(p)
                        } else {
                            Some(q)
                        }
                    },
                };
            }
            i = i + 1;
        }
        proof {
            assert(self.pointers@.take(self.pointers@.len() as int) =~= self.pointers@);
        }
        match best {
            None => root,
            Some(q) => q.target,
        }
    }

    /// What `root` resolves to: its latest version's record.
    pub fn resolve(&self, root: u64) -> (r: Option<FileMetadata>)
        requires
            self.wf(),
        ensures
            match r {
                Some(m) => spec_resolve(self.records(), self.pointers(), root) == Some(m@),
                None => spec_resolve(self.records(), self.pointers(), root) is None,
            },
    {
        let lat = self.latest(root);
        self.get_record(lat)
    }

    /// Every version record reachable from `root`, in arrival order.
    pub fn history(&self, root: u64) -> (r: Vec<FileMetadata>)
        requires
            self.wf(),
        ensures
            meta_views(r@) == spec_history(self.records(), self.pointers(), root),
    {
        let mut r: Vec<FileMetadata> = Vec::new();
        match self.get_record(root) {
            Some(m) => {
                proof {
                    assert(meta_views(r@.push(m)) =~= seq![self.records()[root]]);
                }
                r.push(m);
            },
            None => {
                proof {
                    assert(meta_views(r@) =~= Seq::<MetadataView>::empty());
                }
            },
        }
        let ghost head = meta_views(r@);
        let mut i: usize = 0;
        proof {
            assert(self.pointers@.take(0) =~= Seq::<UpdatePointer>::empty());
            assert(meta_views(r@) =~= head + spec_history_targets(
                self.records(),
                self.pointers@.take(0),
                root,
            ));
        }
        while i < self.pointers.len()
            invariant
                self.wf(),
                0 <= i <= self.pointers@.len(),
                head == (if self.records().contains_key(root) {
                    seq![self.records()[root]]
                } else {
                    Seq::<MetadataView>::empty()
                }),
                meta_views(r@) == head + spec_history_targets(
                    self.records(),
                    self.pointers@.take(i as int),
                    root,
                ),
            decreases self.pointers@.len() - i,
        {
            let p = self.pointers[i];
            proof {
                assert(self.pointers@.take(i + 1).drop_last() =~= self.pointers@.take(i as int));
                assert(self.pointers@.take(i + 1).last() == p);
            }
            if p.root == root {
                match self.get_record(p.target) {
                    Some(m) => {
                        let ghost old_vs = meta_views(r@);
                        proof {
                            assert(meta_views(r@.push(m)) =~= old_vs.push(m@));
                        }
                        r.push(m);
                    },
                    None => {},
                }
            }
            i = i + 1;
        }
        proof {
            assert(self.pointers@.take(self.pointers@.len() as int) =~= self.pointers@);
        }
        r
    }

    /// Remove the record under `id`; says whether it was present.
    fn remove_record(&mut self, id: u64) -> (was_present: bool)
        requires
            old(self).wf(),
        ensures
            final(self).wf(),
            was_present == old(self).records().contains_key(id),
            final(self).records() == old(self).records().remove(id),
            final(self).pointers() == old(self).pointers(),
            final(self).next_id() == old(self).next_id(),
    {
        proof {
            lemma_assoc_map_contains(self.records@, id);
        }
        match self.find_record(id) {
            Some(i) => {
                proof {
                    lemma_assoc_map_remove(self.records@, i as int);
                    assert forall|j: int|
                        0 <= j < self.records@.remove(i as int).len() implies (
                    #[trigger] self.records@.remove(i as int)[j]).0 < self.next_id by {
                        if j < i {
                            assert(self.records@.remove(i as int)[j] == self.records@[j]);
                        } else {
                            assert(self.records@.remove(i as int)[j] == self.records@[j + 1]);
                        }
                    }
                }
                self.records.remove(i);
                true
            },
            None => {
                proof {
                    assert(self.records().remove(id) =~= self.records());
                }
                false
            },
        }
    }

    /// Remove every update pointer of `root`.
    fn remove_pointers_of(&mut self, root: u64)
        requires
            old(self).wf(),
        ensures
            final(self).wf(),
            final(self).pointers() == ptrs_without(old(self).pointers(), root),
            final(self).records() == old(self).records(),
            final(self).next_id() == old(self).next_id(),
    {
        let mut kept: Vec<UpdatePointer> = Vec::new();
        let mut i: usize = 0;
        proof {
            assert(self.pointers@.take(0) =~= Seq::<UpdatePointer>::empty());
            assert(kept@ =~= ptrs_without(self.pointers@.take(0), root));
        }
        while i < self.pointers.len()
            invariant
                0 <= i <= self.pointers@.len(),
                kept@ == ptrs_without(self.pointers@.take(i as int), root),
                forall|j: int|
                    0 <= j < self.pointers@.len() ==> (#[trigger] self.pointers@[j]).target
                        < self.next_id && self.pointers@[j].root < self.next_id,
            decreases self.pointers@.len() - i,
        {
            let p = self.pointers[i];
            proof {
                assert(self.pointers@.take(i + 1).drop_last() =~= self.pointers@.take(i as int));
                assert(self.pointers@.take(i + 1).last() == p);
            }
            if p.root != root {
                kept.push(p);
            }
            i = i + 1;
        }
        proof {
            assert(self.pointers@.take(self.pointers@.len() as int) =~= self.pointers@);
            lemma_ptrs_without_props(self.pointers@, root, self.next_id);
        }
        self.pointers = kept;
    }

    /// Delete a whole chain: every superseded version record (in pointer
    /// order), the latest version's record, the root record, and every
    /// update pointer of `root`.  Returns the deleted record ids in that
    /// order.
    pub fn delete_chain(&mut self, root: u64) -> (ids: Vec<u64>)
        requires
            old(self).wf(),
        ensures
            final(self).wf(),
            final(self).records() == spec_delete_result(
                old(self).records(),
                old(self).pointers(),
                root,
            ).0,
            ids@ == spec_delete_result(old(self).records(), old(self).pointers(), root).1,
            final(self).pointers() == ptrs_without(old(self).pointers(), root),
            final(self).next_id() == old(self).next_id(),
    {
        let lat = self.latest(root);
        let ghost recs0 = self.records();
        let ghost ps0 = self.pointers();
        let mut ids: Vec<u64> = Vec::new();
        let mut i: usize = 0;
        proof {
            assert(ps0.take(0) =~= Seq::<UpdatePointer>::empty());
            assert(ids@ =~= spec_delete_scan(recs0, ps0.take(0), root, lat).1);
        }
        while i < self.pointers.len()
            invariant
                self.wf(),
                0 <= i <= self.pointers@.len(),
                lat == spec_latest(ps0, root),
                self.pointers@ == ps0,
                self.next_id() == old(self).next_id(),
                (self.records(), ids@) == spec_delete_scan(recs0, ps0.take(i as int), root, lat),
            decreases self.pointers@.len() - i,
        {
            let p = self.pointers[i];
            proof {
                assert(ps0.take(i + 1).drop_last() =~= ps0.take(i as int));
                assert(ps0.take(i + 1).last() == p);
            }
            if p.root == root && p.target != lat {
                let ghost m_before = self.records();
                let was_present = self.remove_record(p.target);
                if was_present {
                    ids.push(p.target);
                } else {
                    proof {
                        assert(m_before.remove(p.target) =~= m_before);
                    }
                }
            }
            i = i + 1;
        }
        proof {
            assert(ps0.take(ps0.len() as int) =~= ps0);
        }
        if lat != root {
            let ghost m_before = self.records();
            let was_present = self.remove_record(lat);
            if was_present {
                ids.push(lat);
            } else {
                proof {
                    assert(m_before.remove(lat) =~= m_before);
                }
            }
        }
        let ghost m_before = self.records();
        let was_present = self.remove_record(root);
        if was_present {
            ids.push(root);
        } else {
            proof {
                assert(m_before.remove(root) =~= m_before);
            }
        }
        self.remove_pointers_of(root);
        ids
    }
}

} // verus!
