//! The hierarchical path index.
//!
//! An arena of path nodes addressed by normalized key.  A node stands for
//! one directory level (a zero-size folder placeholder); it holds the
//! version-chain roots of the files directly at that path, and its
//! descendants are the nodes whose keys extend it by further dot-separated
//! segments.  Every ancestor of an indexed path is materialized, so the
//! index mirrors directory semantics without a separate mkdir.

use vstd::prelude::*;

use crate::assoc::{
    assoc_map, distinct_keys, lemma_assoc_map_contains, lemma_assoc_map_index,
    lemma_assoc_map_push, lemma_assoc_map_update,
};
use crate::errors::FsError;
use crate::metadata::{FileMetadata, MetadataView};
use crate::paths::{
    fs_path_to_dht_path, join_prefix, path_segments, spec_dht_path, spec_join, spec_segments,
    str_eq, string_views,
};
use crate::versions::{spec_resolve, UpdatePointer, VersionChain};
use vstd::pervasive::VecAdditionalExecFns;
use vstd::slice::slice_to_vec;
use vstd::string::StrSliceExecFns;

verus! {

/// The key of each ancestor level of a path, shortest first; the last
/// one is the path's own key.
pub open spec fn spec_ancestor_keys(path: Seq<char>) -> Seq<Seq<char>> {
    let segs = spec_segments(path);
    Seq::new(segs.len(), |i: int| spec_join(segs.take(i + 1), '.'))
}

/// Whether `key` names `prefix` itself or a descendant level of it.
pub open spec fn spec_is_under(key: Seq<char>, prefix: Seq<char>) -> bool {
    key == prefix || (key.len() > prefix.len() && key.take(prefix.len() as int) == prefix
        && key[prefix.len() as int] == '.')
}

/// The latest metadata of each live file among `entries`, in order;
/// roots whose chain is gone resolve to nothing and are skipped.
pub open spec fn spec_live_entries(
    entries: Seq<u64>,
    recs: Map<u64, MetadataView>,
    ps: Seq<UpdatePointer>,
) -> Seq<MetadataView>
    decreases entries.len(),
{
    if entries.len() == 0 {
        Seq::empty()
    } else {
        let rest = spec_live_entries(entries.drop_last(), recs, ps);
        match spec_resolve(recs, ps, entries.last()) {
            Some(m) => rest.push(m),
            None => rest,
        }
    }
}

/// The first live entry whose latest version bears `name`, with its root.
pub open spec fn spec_lookup_entries(
    entries: Seq<u64>,
    recs: Map<u64, MetadataView>,
    ps: Seq<UpdatePointer>,
    name: Seq<char>,
) -> Option<(u64, MetadataView)>
    decreases entries.len(),
{
    if entries.len() == 0 {
        None
    } else {
        let found = match spec_resolve(recs, ps, entries.first()) {
            Some(m) => m.name == name,
            None => false,
        };
        if found {
            Some((entries.first(), spec_resolve(recs, ps, entries.first())->Some_0))
        } else {
            spec_lookup_entries(entries.drop_first(), recs, ps, name)
        }
    }
}

/// The first live file at `path` bearing `name`, with its root.
pub open spec fn spec_lookup(
    idx: Map<Seq<char>, Seq<u64>>,
    recs: Map<u64, MetadataView>,
    ps: Seq<UpdatePointer>,
    path: Seq<char>,
    name: Seq<char>,
) -> Option<(u64, MetadataView)> {
    let key = spec_dht_path(path);
    if idx.contains_key(key) {
        spec_lookup_entries(idx[key], recs, ps, name)
    } else {
        None
    }
}

/// The latest metadata of every live file directly at `path`.
pub open spec fn spec_list_at(
    idx: Map<Seq<char>, Seq<u64>>,
    recs: Map<u64, MetadataView>,
    ps: Seq<UpdatePointer>,
    path: Seq<char>,
) -> Seq<MetadataView> {
    let key = spec_dht_path(path);
    if idx.contains_key(key) {
        spec_live_entries(idx[key], recs, ps)
    } else {
        Seq::empty()
    }
}

/// The latest metadata of every live file at or under `prefix`, node by
/// node in arena order.
pub open spec fn spec_list_rec(
    nodes: Seq<(Seq<char>, Seq<u64>)>,
    recs: Map<u64, MetadataView>,
    ps: Seq<UpdatePointer>,
    prefix: Seq<char>,
) -> Seq<MetadataView>
    decreases nodes.len(),
{
    if nodes.len() == 0 {
        Seq::empty()
    } else {
        let rest = spec_list_rec(nodes.drop_last(), recs, ps, prefix);
        if spec_is_under(nodes.last().0, prefix) {
            rest + spec_live_entries(nodes.last().1, recs, ps)
        } else {
            rest
        }
    }
}

/// A live entry of any node is listed.
pub proof fn lemma_live_entries_contains(
    entries: Seq<u64>,
    recs: Map<u64, MetadataView>,
    ps: Seq<UpdatePointer>,
    j: int,
    m: MetadataView,
)
    requires
        0 <= j < entries.len(),
        spec_resolve(recs, ps, entries[j]) == Some(m),
    ensures
        spec_live_entries(entries, recs, ps).contains(m),
    decreases entries.len(),
{
    if j == entries.len() - 1 {
        let r = spec_live_entries(entries, recs, ps);
        assert(r.last() == m);
        assert(r[r.len() - 1] == m);
    } else {
        lemma_live_entries_contains(entries.drop_last(), recs, ps, j, m);
        let rest = spec_live_entries(entries.drop_last(), recs, ps);
        let k = choose|k: int| 0 <= k < rest.len() && rest[k] == m;
        assert(spec_live_entries(entries, recs, ps)[k] == m);
    }
}

/// A file indexed at a level at or under `prefix` shows up in the
/// recursive listing of `prefix`, while the direct listing of a path
/// draws from that path's own node alone.
pub proof fn lemma_recursive_includes_descendants(
    nodes: Seq<(Seq<char>, Seq<u64>)>,
    recs: Map<u64, MetadataView>,
    ps: Seq<UpdatePointer>,
    prefix: Seq<char>,
    i: int,
    j: int,
    m: MetadataView,
)
    requires
        0 <= i < nodes.len(),
        spec_is_under(nodes[i].0, prefix),
        0 <= j < nodes[i].1.len(),
        spec_resolve(recs, ps, nodes[i].1[j]) == Some(m),
    ensures
        spec_list_rec(nodes, recs, ps, prefix).contains(m),
    decreases nodes.len(),
{
    lemma_live_entries_contains(nodes[i].1, recs, ps, j, m);
    if i == nodes.len() - 1 {
        let rest = spec_list_rec(nodes.drop_last(), recs, ps, prefix);
        let le = spec_live_entries(nodes.last().1, recs, ps);
        let k = choose|k: int| 0 <= k < le.len() && le[k] == m;
        assert(spec_list_rec(nodes, recs, ps, prefix)[rest.len() + k] == m);
    } else {
        lemma_recursive_includes_descendants(nodes.drop_last(), recs, ps, prefix, i, j, m);
        let rest = spec_list_rec(nodes.drop_last(), recs, ps, prefix);
        let k = choose|k: int| 0 <= k < rest.len() && rest[k] == m;
        assert(spec_list_rec(nodes, recs, ps, prefix)[k] == m);
    }
}

/// The hierarchical index: an arena of path nodes under distinct
/// normalized keys.
pub struct PathIndex {
    nodes: Vec<(String, Vec<u64>)>,
}

impl View for PathIndex {
    type V = Map<Seq<char>, Seq<u64>>;

    /// The index, as the map from normalized key to the version-chain
    /// roots indexed directly at that level.
    closed spec fn view(&self) -> Map<Seq<char>, Seq<u64>> {
        assoc_map(self.nodes@)
    }
}

impl PathIndex {
    /// The node arena in its own order: each key with its roots.
    pub closed spec fn node_list(&self) -> Seq<(Seq<char>, Seq<u64>)> {
        self.nodes@.map_values(|n: (String, Vec<u64>)| (n.0@, n.1@))
    }

    /// Each level is materialized once.
    pub closed spec fn wf(&self) -> bool {
        distinct_keys(self.nodes@)
    }

    /// The node arena agrees with the map view.
    pub proof fn lemma_node_list_agrees(&self, i: int)
        requires
            self.wf(),
            0 <= i < self.node_list().len(),
        ensures
            self@.contains_key(self.node_list()[i].0),
            self@[self.node_list()[i].0] == self.node_list()[i].1,
    {
        lemma_assoc_map_index(self.nodes@, i);
    }

    pub fn new() -> (index: PathIndex)
        ensures
            index.wf(),
            index@ == Map::<Seq<char>, Seq<u64>>::empty(),
            index.node_list() == Seq::<(Seq<char>, Seq<u64>)>::empty(),
    {
        let index = PathIndex { nodes: Vec::new() };
        proof {
            assert(index.node_list() =~= Seq::<(Seq<char>, Seq<u64>)>::empty());
        }
        index
    }

    /// The index of the node stored under `key`, if any.
    fn find_node(&self, key: &String) -> (r: Option<usize>)
        ensures
            match r {
                Some(i) => i < self.nodes@.len() && self.nodes@[i as int].0@ == key@,
                None => forall|j: int|
                    0 <= j < self.nodes@.len() ==> (#[trigger] self.nodes@[j]).0@ != key@,
            },
    {
        let mut i: usize = 0;
        while i < self.nodes.len()
            invariant
                0 <= i <= self.nodes@.len(),
                forall|j: int| 0 <= j < i ==> (#[trigger] self.nodes@[j]).0@ != key@,
            decreases self.nodes@.len() - i,
        {
            if self.nodes[i].0.eq(key) {
                return Some(i);
            }
            i = i + 1;
        }
        None
    }

    /// Idempotently materialize every ancestor level of `path`, leaving
    /// already-present levels untouched and giving fresh ones no entries.
    pub fn ensure(&mut self, path: &str)
        requires
            old(self).wf(),
        ensures
            final(self).wf(),
            forall|k: Seq<char>|
                #[trigger] final(self)@.contains_key(k) <==> old(self)@.contains_key(k)
                    || spec_ancestor_keys(path@).contains(k),
            forall|k: Seq<char>|
                #[trigger] old(self)@.contains_key(k) ==> final(self)@[k] == old(self)@[k],
            forall|k: Seq<char>|
                #[trigger] final(self)@.contains_key(k) && !old(self)@.contains_key(k) ==> final(self)@[k] == Seq::<u64>::empty(),
            final(self)@.contains_key(spec_dht_path(path@)),
            final(self).node_list().len() >= old(self).node_list().len(),
            forall|i: int|
                0 <= i < old(self).node_list().len() ==> #[trigger] final(self).node_list()[i]
                    == old(self).node_list()[i],
            forall|i: int|
                old(self).node_list().len() <= i < final(self).node_list().len() ==> (
                #[trigger] final(self).node_list()[i]).1 == Seq::<u64>::empty(),
    {
        let segs = path_segments(path);
        let ghost keys = spec_ancestor_keys(path@);
        let mut i: usize = 0;
        while i < segs.len()
            invariant
                self.wf(),
                string_views(segs@) == spec_segments(path@),
                keys == spec_ancestor_keys(path@),
                keys.len() == segs@.len(),
                0 <= i <= segs@.len(),
                forall|k: Seq<char>|
                    #[trigger] self@.contains_key(k) <==> old(self)@.contains_key(k) || exists|j: int|
                        0 <= j < i && k == keys[j],
                forall|k: Seq<char>|
                    #[trigger] old(self)@.contains_key(k) ==> self@[k] == old(self)@[k],
                forall|k: Seq<char>|
                    #[trigger] self@.contains_key(k) && !old(self)@.contains_key(k) ==> self@[k]
                        == Seq::<u64>::empty(),
                self.node_list().len() >= old(self).node_list().len(),
                forall|j: int|
                    0 <= j < old(self).node_list().len() ==> #[trigger] self.node_list()[j] == old(
                        self,
                    ).node_list()[j],
                forall|j: int|
                    old(self).node_list().len() <= j < self.node_list().len() ==> (
                    #[trigger] self.node_list()[j]).1 == Seq::<u64>::empty(),
            decreases segs@.len() - i,
        {
            let key = join_prefix(&segs, i + 1);
            proof {
                assert(string_views(segs@).take(i + 1) =~= spec_segments(path@).take(i + 1));
                assert(key@ == keys[i as int]);
            }
            match self.find_node(&key) {
                Some(_) => {
                    proof {
                        lemma_assoc_map_contains(self.nodes@, key@);
                        assert(self@.contains_key(keys[i as int]));
                        assert forall|k: Seq<char>| #[trigger] self@.contains_key(k) implies (old(self)@.contains_key(k) || exists|j: int| 0 <= j < i + 1 && k == keys[j]) by {
                            if !old(self)@.contains_key(k) {
                                let j = choose|j: int| 0 <= j < i && k == keys[j];
                                assert(0 <= j < i + 1 && k == keys[j]);
                            }
                        }
                    }
                },
                None => {
                    let entry = (key, Vec::<u64>::new());
                    let ghost pre_nl = self.node_list();
                    proof {
                        lemma_assoc_map_contains(self.nodes@, entry.0@);
                        assert(!self@.contains_key(entry.0@));
                        lemma_assoc_map_push(self.nodes@, entry);
                        assert forall|a: int, b: int|
                            0 <= a < b < self.nodes@.push(entry).len() implies self.nodes@.push(
                            entry,
                        )[a].0@ != self.nodes@.push(entry)[b].0@ by {
                            if b < self.nodes@.len() {
                                assert(self.nodes@[a].0@ != self.nodes@[b].0@);
                            } else {
                                assert(self.nodes@[a].0@ != entry.0@);
                            }
                        }
                    }
                    self.nodes.push(entry);
                    proof {
                        assert(self.node_list() =~= pre_nl.push((entry.0@, Seq::<u64>::empty())));
                        assert forall|k: Seq<char>| #[trigger] self@.contains_key(k) implies (old(self)@.contains_key(k) || exists|j: int| 0 <= j < i + 1 && k == keys[j]) by {
                            if !old(self)@.contains_key(k) {
                                if k == keys[i as int] {
                                    assert(0 <= i < i + 1 && k == keys[i as int]);
                                } else {
                                    let j = choose|j: int| 0 <= j < i && k == keys[j];
                                    assert(0 <= j < i + 1 && k == keys[j]);
                                }
                            }
                        }
                        assert(self@.contains_key(keys[i as int]));
                    }
                },
            }
            i = i + 1;
        }
        proof {
            assert forall|k: Seq<char>| #[trigger] self@.contains_key(k) implies (old(self)@.contains_key(k) || keys.contains(k)) by {
                if !old(self)@.contains_key(k) {
                    let j = choose|j: int| 0 <= j < segs@.len() && k == keys[j];
                    assert(keys[j] == k);
                }
            }
            assert forall|k: Seq<char>|
                old(self)@.contains_key(k) || keys.contains(k) implies #[trigger] self@.contains_key(
                k,
            ) by {
                if !old(self)@.contains_key(k) {
                    let j = choose|j: int| 0 <= j < keys.len() && keys[j] == k;
                    assert(0 <= j < segs@.len() && k == keys[j]);
                }
            }
            let segsv = spec_segments(path@);
            assert(segsv.take(segsv.len() as int) =~= segsv);
            assert(keys[keys.len() - 1] == spec_dht_path(path@));
            assert(keys.contains(spec_dht_path(path@)));
        }
    }

    /// Attach a version-chain root to the leaf node of `path`.
    pub fn index_file(&mut self, path: &str, root: u64)
        requires
            old(self).wf(),
            old(self)@.contains_key(spec_dht_path(path@)),
        ensures
            final(self).wf(),
            final(self)@ == old(self)@.insert(
                spec_dht_path(path@),
                old(self)@[spec_dht_path(path@)].push(root),
            ),
            exists|i: int|
                0 <= i < old(self).node_list().len() && (#[trigger] old(self).node_list()[i]).0
                    == spec_dht_path(path@) && final(self).node_list() == old(
                    self,
                ).node_list().update(
                    i,
                    (old(self).node_list()[i].0, old(self).node_list()[i].1.push(root)),
                ),
    {
        let key = fs_path_to_dht_path(path);
        proof {
            lemma_assoc_map_contains(self.nodes@, key@);
        }
        match self.find_node(&key) {
            Some(i) => {
                proof {
                    lemma_assoc_map_index(self.nodes@, i as int);
                }
                let node_key = self.nodes[i].0.clone();
                let mut entries = slice_to_vec(self.nodes[i].1.as_slice());
                entries.push(root);
                let entry = (node_key, entries);
                let ghost pre_nl = self.node_list();
                proof {
                    lemma_assoc_map_update(self.nodes@, i as int, entry);
                }
                self.nodes.set(i, entry);
                proof {
                    assert(pre_nl[i as int].0 == key@);
                    assert(self.node_list() =~= pre_nl.update(
                        i as int,
                        (pre_nl[i as int].0, pre_nl[i as int].1.push(root)),
                    ));
                }
            },
            None => {
                proof {
                    assert(false);
                }
            },
        }
    }

    /// The first live file at `path` bearing `name`: its root and latest
    /// metadata; fails `NotFound` when no such file is live.
    pub fn lookup_by_path_and_name(
        &self,
        chain: &VersionChain,
        path: &str,
        name: &String,
    ) -> (r: Result<(u64, FileMetadata), FsError>)
        requires
            self.wf(),
            chain.wf(),
        ensures
            match r {
                Ok(p) => spec_lookup(self@, chain.records(), chain.pointers(), path@, name@)
                    == Some((p.0, p.1@)),
                Err(e) => e == FsError::NotFound && spec_lookup(
                    self@,
                    chain.records(),
                    chain.pointers(),
                    path@,
                    name@,
                ) is None,
            },
    {
        let key = fs_path_to_dht_path(path);
        proof {
            lemma_assoc_map_contains(self.nodes@, key@);
        }
        match self.find_node(&key) {
            Some(i) => {
                proof {
                    lemma_assoc_map_index(self.nodes@, i as int);
                }
                let ghost entries = self.nodes@[i as int].1@;
                let n = self.nodes[i].1.len();
                let mut j: usize = 0;
                proof {
                    assert(entries.skip(0) =~= entries);
                }
                while j < n
                    invariant
                        self.wf(),
                        chain.wf(),
                        0 <= i < self.nodes@.len(),
                        entries == self.nodes@[i as int].1@,
                        key@ == spec_dht_path(path@),
                        self@.contains_key(key@),
                        self@[key@] == entries,
                        n == entries.len(),
                        0 <= j <= n,
                        spec_lookup_entries(entries, chain.records(), chain.pointers(), name@)
                            == spec_lookup_entries(
                            entries.skip(j as int),
                            chain.records(),
                            chain.pointers(),
                            name@,
                        ),
                    decreases n - j,
                {
                    let root = self.nodes[i].1[j];
                    let ghost rem = entries.skip(j as int);
                    proof {
                        assert(rem.first() == entries[j as int]);
                        assert(rem.drop_first() =~= entries.skip(j + 1));
                    }
                    match chain.resolve(root) {
                        Some(m) => {
                            if m.name.eq(name) {
                                return Ok((root, m));
                            }
                        },
                        None => {},
                    }
                    j = j + 1;
                }
                proof {
                    assert(entries.skip(n as int) =~= Seq::<u64>::empty());
                }
                Err(FsError::NotFound)
            },
            None => Err(FsError::NotFound),
        }
    }

    /// The latest metadata of every live file directly at `path`.
    pub fn list_at(&self, chain: &VersionChain, path: &str) -> (r: Vec<FileMetadata>)
        requires
            self.wf(),
            chain.wf(),
        ensures
            crate::versions::meta_views(r@) == spec_list_at(
                self@,
                chain.records(),
                chain.pointers(),
                path@,
            ),
    {
        let key = fs_path_to_dht_path(path);
        proof {
            lemma_assoc_map_contains(self.nodes@, key@);
        }
        let mut r: Vec<FileMetadata> = Vec::new();
        match self.find_node(&key) {
            Some(i) => {
                proof {
                    lemma_assoc_map_index(self.nodes@, i as int);
                }
                self.collect_live(chain, i, &mut r);
            },
            None => {
                proof {
                    assert(crate::versions::meta_views(r@) =~= Seq::<MetadataView>::empty());
                }
            },
        }
        r
    }

    /// Append the live resolutions of node `i`'s entries to `out`.
    fn collect_live(&self, chain: &VersionChain, i: usize, out: &mut Vec<FileMetadata>)
        requires
            self.wf(),
            chain.wf(),
            i < self.nodes@.len(),
        ensures
            crate::versions::meta_views(final(out)@) == crate::versions::meta_views(old(out)@)
                + spec_live_entries(
                self.nodes@[i as int].1@,
                chain.records(),
                chain.pointers(),
            ),
    {
        let ghost entries = self.nodes@[i as int].1@;
        let ghost base = crate::versions::meta_views(out@);
        let n = self.nodes[i].1.len();
        let mut j: usize = 0;
        proof {
            assert(entries.take(0) =~= Seq::<u64>::empty());
            assert(crate::versions::meta_views(out@) =~= base + spec_live_entries(
                entries.take(0),
                chain.records(),
                chain.pointers(),
            ));
        }
        while j < n
            invariant
                self.wf(),
                chain.wf(),
                0 <= i < self.nodes@.len(),
                entries == self.nodes@[i as int].1@,
                n == entries.len(),
                0 <= j <= n,
                crate::versions::meta_views(out@) == base + spec_live_entries(
                    entries.take(j as int),
                    chain.records(),
                    chain.pointers(),
                ),
            decreases n - j,
        {
            let root = self.nodes[i].1[j];
            proof {
                assert(entries.take(j + 1).drop_last() =~= entries.take(j as int));
                assert(entries.take(j + 1).last() == entries[j as int]);
            }
            match chain.resolve(root) {
                Some(m) => {
                    let ghost old_vs = crate::versions::meta_views(out@);
                    proof {
                        assert(crate::versions::meta_views(out@.push(m)) =~= old_vs.push(m@));
                        assert(base + spec_live_entries(
                            entries.take(j as int),
                            chain.records(),
                            chain.pointers(),
                        ).push(m@) =~= (base + spec_live_entries(
                            entries.take(j as int),
                            chain.records(),
                            chain.pointers(),
                        )).push(m@));
                    }
                    out.push(m);
                },
                None => {},
            }
            j = j + 1;
        }
        proof {
            assert(entries.take(n as int) =~= entries);
        }
    }

    /// The latest metadata of every live file at or under `path`,
    /// gathered depth-first over the arena; callers must not depend on
    /// the order.
    pub fn list_recursive(&self, chain: &VersionChain, path: &str) -> (r: Vec<FileMetadata>)
        requires
            self.wf(),
            chain.wf(),
        ensures
            crate::versions::meta_views(r@) == spec_list_rec(
                self.node_list(),
                chain.records(),
                chain.pointers(),
                spec_dht_path(path@),
            ),
    {
        let key = fs_path_to_dht_path(path);
        let mut r: Vec<FileMetadata> = Vec::new();
        let mut i: usize = 0;
        proof {
            assert(self.node_list().take(0) =~= Seq::<(Seq<char>, Seq<u64>)>::empty());
            assert(crate::versions::meta_views(r@) =~= spec_list_rec(
                self.node_list().take(0),
                chain.records(),
                chain.pointers(),
                key@,
            ));
        }
        while i < self.nodes.len()
            invariant
                self.wf(),
                chain.wf(),
                key@ == spec_dht_path(path@),
                0 <= i <= self.nodes@.len(),
                self.node_list().len() == self.nodes@.len(),
                crate::versions::meta_views(r@) == spec_list_rec(
                    self.node_list().take(i as int),
                    chain.records(),
                    chain.pointers(),
                    key@,
                ),
            decreases self.nodes@.len() - i,
        {
            proof {
                assert(self.node_list().take(i + 1).drop_last() =~= self.node_list().take(i as int));
                assert(self.node_list().take(i + 1).last() == self.node_list()[i as int]);
                assert(self.node_list()[i as int].0 == self.nodes@[i as int].0@);
                assert(self.node_list()[i as int].1 == self.nodes@[i as int].1@);
            }
            if is_under(self.nodes[i].0.as_str(), key.as_str()) {
                self.collect_live(chain, i, &mut r);
            }
            i = i + 1;
        }
        proof {
            assert(self.node_list().take(self.node_list().len() as int) =~= self.node_list());
        }
        r
    }
}

/// Whether `key` names `prefix` itself or a level under it.
pub fn is_under(key: &str, prefix: &str) -> (r: bool)
    ensures
        r == spec_is_under(key@, prefix@),
{
    let kn = key.unicode_len();
    let pn = prefix.unicode_len();
    if kn == pn {
        let r = str_eq(key, prefix);
        proof {
            if r {
                assert(key@ == prefix@);
            } else {
                assert(key@ != prefix@);
            }
        }
        r
    } else if kn > pn {
        let head = key.substring_char(0, pn);
        let r = str_eq(head, prefix) && key.get_char(pn) == '.';
        proof {
            assert(head@ =~= key@.take(pn as int));
        }
        r
    } else {
        false
    }
}

} // verus!
