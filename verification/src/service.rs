//! The file service: create, read, update, delete and list, orchestrating
//! the chunk store, the path index and the version chain, and enforcing
//! the file-level rules (validation, uniqueness among live files, cascade
//! deletion).

use vstd::prelude::*;

use crate::chunks::{
    collision_free, digests_of, lemma_chunks_flatten, lemma_remove_digest_keys_absent,
    lemma_store_chunks_read_back, remove_digest_keys, spec_chunks, store_chunks, views_of,
    ChunkStore, CHUNK_SIZE,
};
use crate::errors::FsError;
use crate::index::{
    spec_ancestor_keys, spec_list_at, spec_list_rec, spec_lookup, PathIndex,
};
use crate::metadata::{
    chunk_views, has_forbidden_chars, spec_valid_metadata, FileChunk, FileInput, FileMetadata,
    FileOutput, MetadataView, UpdateFileMetadataInput,
};
use crate::paths::{spec_dht_path, spec_standardize, standardize_fs_path};
use crate::versions::{
    lemma_latest_after_push, lemma_latest_none, lemma_ptrs_without_props, meta_views,
    ptrs_without, spec_delete_result, spec_resolve, UpdatePointer, VersionChain,
};
use vstd::slice::slice_to_vec;
use vstd::string::{StrSliceExecFns, StringExecFns};

verus! {

/// Whether every chunk a metadata record lists is in the store.
pub open spec fn all_chunks_present(m: MetadataView, cm: Map<Seq<u8>, Seq<u8>>) -> bool {
    forall|i: int|
        0 <= i < m.chunks_hashes.len() ==> cm.contains_key(#[trigger] m.chunks_hashes[i])
}

/// The chunk bytes a metadata record points at, in list order.
pub open spec fn chunks_data(m: MetadataView, cm: Map<Seq<u8>, Seq<u8>>) -> Seq<Seq<u8>> {
    m.chunks_hashes.map_values(|d: Seq<u8>| cm[d])
}

/// The metadata record a creation writes.
pub open spec fn created_metadata(
    name: Seq<char>,
    author: Seq<char>,
    path: Seq<char>,
    file_type: Seq<char>,
    content: Seq<u8>,
    now: u64,
) -> MetadataView {
    MetadataView {
        name,
        author,
        path: spec_standardize(path),
        created: now,
        last_modified: now,
        size: content.len(),
        file_type,
        chunks_hashes: digests_of(spec_chunks(content, CHUNK_SIZE as int)),
    }
}

/// The metadata record an update writes: the same names and creation
/// time, a new modification time, size and chunk list.
pub open spec fn updated_metadata(old_m: MetadataView, content: Seq<u8>, now: u64) -> MetadataView {
    MetadataView {
        last_modified: now,
        size: content.len(),
        chunks_hashes: digests_of(spec_chunks(content, CHUNK_SIZE as int)),
        ..old_m
    }
}

/// Every root a node list holds was handed out (it is below `nid`) and
/// is listed exactly once across all nodes and positions.
pub open spec fn roots_ok(nl: Seq<(Seq<char>, Seq<u64>)>, nid: u64) -> bool {
    &&& forall|i: int, a: int|
        0 <= i < nl.len() && 0 <= a < nl[i].1.len() ==> (#[trigger] nl[i].1[a]) < nid
    &&& forall|i: int, a: int, j: int, b: int|
        0 <= i < nl.len() && 0 <= a < nl[i].1.len() && 0 <= j < nl.len() && 0 <= b < nl[j].1.len()
            && (i != j || a != b) ==> (#[trigger] nl[i].1[a]) != (#[trigger] nl[j].1[b])
}

/// Materializing empty levels and then attaching one fresh root keeps
/// every listed root handed-out and listed once.
proof fn lemma_roots_ok_after_create(
    old_nl: Seq<(Seq<char>, Seq<u64>)>,
    mid_nl: Seq<(Seq<char>, Seq<u64>)>,
    new_nl: Seq<(Seq<char>, Seq<u64>)>,
    i0: int,
    root: u64,
    old_nid: u64,
    new_nid: u64,
)
    requires
        roots_ok(old_nl, old_nid),
        old_nid <= root < new_nid,
        mid_nl.len() >= old_nl.len(),
        forall|i: int| 0 <= i < old_nl.len() ==> #[trigger] mid_nl[i] == old_nl[i],
        forall|i: int|
            old_nl.len() <= i < mid_nl.len() ==> (#[trigger] mid_nl[i]).1 == Seq::<u64>::empty(),
        0 <= i0 < mid_nl.len(),
        new_nl == mid_nl.update(i0, (mid_nl[i0].0, mid_nl[i0].1.push(root))),
    ensures
        roots_ok(new_nl, new_nid),
{
    let le = mid_nl[i0].1.len() as int;
    assert forall|i: int, a: int|
        0 <= i < new_nl.len() && 0 <= a < new_nl[i].1.len() implies (#[trigger] new_nl[i].1[a])
        < new_nid by {
        if i == i0 && a == le {
        } else {
            assert(new_nl[i].1[a] == old_nl[i].1[a]);
            assert(old_nl[i].1[a] < old_nid);
        }
    }
    assert forall|i: int, a: int, j: int, b: int|
        0 <= i < new_nl.len() && 0 <= a < new_nl[i].1.len() && 0 <= j < new_nl.len() && 0 <= b
            < new_nl[j].1.len() && (i != j || a != b) implies (#[trigger] new_nl[i].1[a]) != (
    #[trigger] new_nl[j].1[b]) by {
        if i == i0 && a == le {
            assert(new_nl[i].1[a] == root);
            assert(new_nl[j].1[b] == old_nl[j].1[b]);
            assert(old_nl[j].1[b] < old_nid);
        } else if j == i0 && b == le {
            assert(new_nl[j].1[b] == root);
            assert(new_nl[i].1[a] == old_nl[i].1[a]);
            assert(old_nl[i].1[a] < old_nid);
        } else {
            assert(new_nl[i].1[a] == old_nl[i].1[a]);
            assert(new_nl[j].1[b] == old_nl[j].1[b]);
        }
    }
}

/// Round trip: a file whose metadata was freshly created from `content`
/// reads back, chunk by chunk, as exactly the chunks of `content`, whose
/// concatenation is `content` — provided no two distinct chunks of
/// `content` collide under the digest.
pub proof fn lemma_create_then_read(
    cm: Map<Seq<u8>, Seq<u8>>,
    content: Seq<u8>,
    m: MetadataView,
)
    requires
        m.chunks_hashes == digests_of(spec_chunks(content, CHUNK_SIZE as int)),
        collision_free(spec_chunks(content, CHUNK_SIZE as int)),
    ensures
        all_chunks_present(m, store_chunks(cm, spec_chunks(content, CHUNK_SIZE as int))),
        chunks_data(m, store_chunks(cm, spec_chunks(content, CHUNK_SIZE as int))) == spec_chunks(
            content,
            CHUNK_SIZE as int,
        ),
        chunks_data(m, store_chunks(cm, spec_chunks(content, CHUNK_SIZE as int))).flatten()
            == content,
{
    let cs = spec_chunks(content, CHUNK_SIZE as int);
    let post = store_chunks(cm, cs);
    assert forall|i: int| 0 <= i < m.chunks_hashes.len() implies post.contains_key(
        #[trigger] m.chunks_hashes[i],
    ) by {
        lemma_store_chunks_read_back(cm, cs, i);
    }
    assert forall|i: int| 0 <= i < cs.len() implies chunks_data(m, post)[i] == cs[i] by {
        lemma_store_chunks_read_back(cm, cs, i);
    }
    assert(chunks_data(m, post) =~= cs);
    lemma_chunks_flatten(content, CHUNK_SIZE as int);
}

/// Wrap raw chunk bytes as chunk records.
fn wrap_chunks(pieces: Vec<Vec<u8>>) -> (r: Vec<FileChunk>)
    ensures
        chunk_views(r@) == views_of(pieces@),
{
    let mut r: Vec<FileChunk> = Vec::new();
    let mut i: usize = 0;
    proof {
        assert(chunk_views(r@) =~= views_of(pieces@.take(0)));
    }
    while i < pieces.len()
        invariant
            0 <= i <= pieces@.len(),
            chunk_views(r@) == views_of(pieces@.take(i as int)),
        decreases pieces@.len() - i,
    {
        let c = FileChunk(slice_to_vec(pieces[i].as_slice()));
        let ghost old_vs = chunk_views(r@);
        proof {
            assert(chunk_views(r@.push(c)) =~= old_vs.push(pieces@[i as int]@));
            assert(views_of(pieces@.take(i + 1)) =~= views_of(pieces@.take(i as int)).push(
                pieces@[i as int]@,
            ));
        }
        r.push(c);
        i = i + 1;
    }
    proof {
        assert(pieces@.take(pieces@.len() as int) =~= pieces@);
    }
    r
}

/// The storage service for one local replica.
pub struct FileService {
    chunks: ChunkStore,
    index: PathIndex,
    chain: VersionChain,
}

impl FileService {
    /// The chunk store, as a map from identity to bytes.
    pub closed spec fn chunk_map(&self) -> Map<Seq<u8>, Seq<u8>> {
        self.chunks@
    }

    /// The version records, as a map from id to what each says.
    pub closed spec fn records(&self) -> Map<u64, MetadataView> {
        self.chain.records()
    }

    /// The update pointers, in arrival order.
    pub closed spec fn pointers(&self) -> Seq<UpdatePointer> {
        self.chain.pointers()
    }

    /// The path index, as a map from normalized key to roots.
    pub closed spec fn index_map(&self) -> Map<Seq<char>, Seq<u64>> {
        self.index@
    }

    /// The path nodes in arena order.
    pub closed spec fn node_list(&self) -> Seq<(Seq<char>, Seq<u64>)> {
        self.index.node_list()
    }

    /// The id the next stored record gets.
    pub closed spec fn next_id(&self) -> u64 {
        self.chain.next_id()
    }

    /// The components' own invariants, and across them: every root the
    /// index lists is an id the chain handed out, listed exactly once.
    pub closed spec fn wf(&self) -> bool {
        self.chunks.wf() && self.index.wf() && self.chain.wf() && roots_ok(
            self.index.node_list(),
            self.chain.next_id(),
        )
    }

    pub fn new() -> (s: FileService)
        ensures
            s.wf(),
            s.chunk_map() == Map::<Seq<u8>, Seq<u8>>::empty(),
            s.records() == Map::<u64, MetadataView>::empty(),
            s.pointers() == Seq::<UpdatePointer>::empty(),
            s.index_map() == Map::<Seq<char>, Seq<u64>>::empty(),
            s.next_id() == 0,
    {
        FileService { chunks: ChunkStore::new(), index: PathIndex::new(), chain: VersionChain::new() }
    }

    /// How many chunks the store holds.
    pub fn chunk_count(&self) -> (n: usize)
        requires
            self.wf(),
        ensures
            n as nat == self.chunk_map().dom().len(),
    {
        self.chunks.num_chunks()
    }

    /// Whether a chunk is stored under `digest`.
    pub fn has_chunk(&self, digest: &Vec<u8>) -> (r: bool)
        requires
            self.wf(),
        ensures
            r == self.chunk_map().contains_key(digest@),
    {
        match self.chunks.get(digest) {
            Ok(_) => true,
            Err(_) => false,
        }
    }

    /// The latest metadata of the file rooted at the given id; fails
    /// `NotFound` when the root (or its whole chain) has been deleted.
    pub fn get_file_metadata(&self, original_file_metadata_hash: u64) -> (r: Result<
        FileMetadata,
        FsError,
    >)
        requires
            self.wf(),
        ensures
            match r {
                Ok(m) => spec_resolve(self.records(), self.pointers(), original_file_metadata_hash)
                    == Some(m@),
                Err(e) => e == FsError::NotFound && spec_resolve(
                    self.records(),
                    self.pointers(),
                    original_file_metadata_hash,
                ) is None,
            },
    {
        match self.chain.resolve(original_file_metadata_hash) {
            Some(m) => Ok(m),
            None => Err(FsError::NotFound),
        }
    }

    /// Every version record reachable from the root, in arrival order.
    pub fn get_file_history(&self, original_file_metadata_hash: u64) -> (r: Vec<FileMetadata>)
        requires
            self.wf(),
        ensures
            meta_views(r@) == crate::versions::spec_history(
                self.records(),
                self.pointers(),
                original_file_metadata_hash,
            ),
    {
        self.chain.history(original_file_metadata_hash)
    }

    /// The chunk records of the file's latest version, in list order;
    /// fails `NotFound` when the file is gone, and `ChunkMissing` when a
    /// listed identity is absent from the store.
    pub fn get_file_chunks(&self, original_file_metadata_hash: u64) -> (r: Result<
        Vec<FileChunk>,
        FsError,
    >)
        requires
            self.wf(),
        ensures
            ({
                let res = spec_resolve(
                    self.records(),
                    self.pointers(),
                    original_file_metadata_hash,
                );
                match r {
                    Ok(v) => res is Some && all_chunks_present(res->Some_0, self.chunk_map())
                        && chunk_views(v@) == chunks_data(res->Some_0, self.chunk_map()),
                    Err(e) => (e == FsError::NotFound && res is None) || (e == FsError::ChunkMissing
                        && res is Some && !all_chunks_present(res->Some_0, self.chunk_map())),
                }
            }),
    {
        let m = match self.chain.resolve(original_file_metadata_hash) {
            Some(m) => m,
            None => {
                return Err(FsError::NotFound);
            },
        };
        let mut out: Vec<FileChunk> = Vec::new();
        let n = m.chunks_hashes.len();
        let mut i: usize = 0;
        proof {
            assert(m@.chunks_hashes.take(0) =~= Seq::<Seq<u8>>::empty());
            assert(chunk_views(out@) =~= m@.chunks_hashes.take(0).map_values(
                |d: Seq<u8>| self.chunk_map()[d],
            ));
        }
        while i < n
            invariant
                self.wf(),
                spec_resolve(self.records(), self.pointers(), original_file_metadata_hash) == Some(
                    m@,
                ),
                n == m.chunks_hashes@.len(),
                0 <= i <= n,
                forall|j: int|
                    0 <= j < i ==> self.chunk_map().contains_key(#[trigger] m@.chunks_hashes[j]),
                chunk_views(out@) == m@.chunks_hashes.take(i as int).map_values(
                    |d: Seq<u8>| self.chunk_map()[d],
                ),
            decreases n - i,
        {
            proof {
                assert(m@.chunks_hashes[i as int] == m.chunks_hashes@[i as int]@);
            }
            match self.chunks.get(&m.chunks_hashes[i]) {
                Ok(bytes) => {
                    let c = FileChunk(bytes);
                    let ghost old_vs = chunk_views(out@);
                    proof {
                        assert(chunk_views(out@.push(c)) =~= old_vs.push(c@));
                        assert(m@.chunks_hashes.take(i + 1).map_values(
                            |d: Seq<u8>| self.chunk_map()[d],
                        ) =~= m@.chunks_hashes.take(i as int).map_values(
                            |d: Seq<u8>| self.chunk_map()[d],
                        ).push(self.chunk_map()[m@.chunks_hashes[i as int]]));
                    }
                    out.push(c);
                },
                Err(_) => {
                    proof {
                        assert(!self.chunk_map().contains_key(m@.chunks_hashes[i as int]));
                    }
                    return Err(FsError::ChunkMissing);
                },
            }
            i = i + 1;
        }
        proof {
            assert(m@.chunks_hashes.take(n as int) =~= m@.chunks_hashes);
            assert(chunk_views(out@) =~= chunks_data(m@, self.chunk_map()));
        }
        Ok(out)
    }

    /// The first live file at (path, name): its root and latest metadata;
    /// fails `NotFound` when no live file bears that pair.
    pub fn get_file_metadata_by_path_and_name(&self, path: String, name: String) -> (r: Result<
        (u64, FileMetadata),
        FsError,
    >)
        requires
            self.wf(),
        ensures
            match r {
                Ok(p) => spec_lookup(
                    self.index_map(),
                    self.records(),
                    self.pointers(),
                    path@,
                    name@,
                ) == Some((p.0, p.1@)),
                Err(e) => e == FsError::NotFound && spec_lookup(
                    self.index_map(),
                    self.records(),
                    self.pointers(),
                    path@,
                    name@,
                ) is None,
            },
    {
        self.index.lookup_by_path_and_name(&self.chain, path.as_str(), &name)
    }

    /// The latest metadata of every live file directly at `path`.
    pub fn list_by_path(&self, path: String) -> (r: Vec<FileMetadata>)
        requires
            self.wf(),
        ensures
            meta_views(r@) == spec_list_at(self.index_map(), self.records(), self.pointers(), path@),
    {
        self.index.list_at(&self.chain, path.as_str())
    }

    /// The latest metadata of every live file at or under `path`; the
    /// order is an artifact of the arena and not to be relied upon.
    pub fn get_files_metadata_by_path_recursively(&self, path: String) -> (r: Vec<FileMetadata>)
        requires
            self.wf(),
        ensures
            meta_views(r@) == spec_list_rec(
                self.node_list(),
                self.records(),
                self.pointers(),
                spec_dht_path(path@),
            ),
    {
        self.index.list_recursive(&self.chain, path.as_str())
    }

    /// Store a metadata record as a new file root and index it: every
    /// ancestor level of its path is materialized and the root attached
    /// to the leaf.  Returns the file's permanent root id.
    pub fn create_file_metadata(&mut self, file_metadata: FileMetadata) -> (root: u64)
        requires
            old(self).wf(),
            old(self).next_id() < u64::MAX,
        ensures
            final(self).wf(),
            root == old(self).next_id(),
            final(self).records() == old(self).records().insert(root, file_metadata@),
            final(self).pointers() == old(self).pointers(),
            final(self).chunk_map() == old(self).chunk_map(),
            final(self).next_id() == old(self).next_id() + 1,
            spec_resolve(final(self).records(), final(self).pointers(), root) == Some(
                file_metadata@,
            ),
            ({
                let key = spec_dht_path(file_metadata.path@);
                final(self).index_map()[key] == (if old(self).index_map().contains_key(key) {
                    old(self).index_map()[key]
                } else {
                    Seq::<u64>::empty()
                }).push(root) && (forall|k: Seq<char>|
                    k != key && #[trigger] old(self).index_map().contains_key(k) ==> final(self).index_map()[k] == old(self).index_map()[k]) && (forall|k: Seq<char>|
                    #[trigger] final(self).index_map().contains_key(k) <==> old(self).index_map().contains_key(k) || spec_ancestor_keys(
                        file_metadata.path@,
                    ).contains(k))
            }),
    {
        let path = file_metadata.path.clone();
        proof {
            old(self).chain.lemma_wf_bounds();
        }
        let root = self.chain.create_root(file_metadata);
        self.index.ensure(path.as_str());
        let ghost mid_nl = self.index.node_list();
        self.index.index_file(path.as_str(), root);
        proof {
            let i0 = choose|i: int|
                0 <= i < mid_nl.len() && (#[trigger] mid_nl[i]).0 == spec_dht_path(path@)
                    && self.index.node_list() == mid_nl.update(
                    i,
                    (mid_nl[i].0, mid_nl[i].1.push(root)),
                );
            lemma_roots_ok_after_create(
                old(self).node_list(),
                mid_nl,
                self.index.node_list(),
                i0,
                root,
                old(self).next_id(),
                self.chain.next_id(),
            );
            assert forall|i: int| 0 <= i < old(self).pointers().len() implies (#[trigger] old(
                self,
            ).pointers()[i]).root != root by {}
            lemma_latest_none(old(self).pointers(), root);
        }
        root
    }

    /// Create a file: validate, refuse a duplicate live (path, name),
    /// store the content's chunks, write the root metadata record, and
    /// index it under the normalized path.
    pub fn create_file(&mut self, file_input: FileInput, author: &str, now: u64) -> (r: Result<
        FileOutput,
        FsError,
    >)
        requires
            old(self).wf(),
            old(self).next_id() < u64::MAX,
        ensures
            final(self).wf(),
            ({
                let valid = spec_valid_metadata(file_input.name@, file_input.path@);
                let dup = spec_lookup(
                    old(self).index_map(),
                    old(self).records(),
                    old(self).pointers(),
                    file_input.path@,
                    file_input.name@,
                ) is Some;
                let cs = spec_chunks(file_input.content@, CHUNK_SIZE as int);
                let key = spec_dht_path(spec_standardize(file_input.path@));
                match r {
                    Err(e) => (e == FsError::ValidationError || e == FsError::AlreadyExists) && (e
                        == FsError::ValidationError <==> !valid) && (e == FsError::AlreadyExists
                        <==> valid && dup) && *final(self) == *old(self),
                    Ok(out) => valid && !dup && out.root == old(self).next_id() && out.version
                        == out.root && out.file_metadata@ == created_metadata(
                        file_input.name@,
                        author@,
                        file_input.path@,
                        file_input.file_type@,
                        file_input.content@,
                        now,
                    ) && chunk_views(out.file_chunks@) == cs && chunk_views(
                        out.file_chunks@,
                    ).flatten() == file_input.content@ && final(self).records() == old(self).records().insert(out.root, out.file_metadata@) && final(self).pointers()
                        == old(self).pointers() && final(self).chunk_map() == store_chunks(
                        old(self).chunk_map(),
                        cs,
                    ) && final(self).next_id() == old(self).next_id() + 1 && final(self).index_map()[key] == (if old(self).index_map().contains_key(key) {
                        old(self).index_map()[key]
                    } else {
                        Seq::<u64>::empty()
                    }).push(out.root) && (forall|k: Seq<char>|
                        k != key && #[trigger] old(self).index_map().contains_key(k) ==> final(self).index_map()[k] == old(self).index_map()[k]) && (forall|k: Seq<char>|
                        #[trigger] final(self).index_map().contains_key(k) <==> old(self).index_map().contains_key(k) || spec_ancestor_keys(
                            spec_standardize(file_input.path@),
                        ).contains(k)) && spec_resolve(
                        final(self).records(),
                        final(self).pointers(),
                        out.root,
                    ) == Some(out.file_metadata@) && (collision_free(cs) ==> all_chunks_present(
                        out.file_metadata@,
                        final(self).chunk_map(),
                    ) && chunks_data(out.file_metadata@, final(self).chunk_map()) == cs),
                }
            }),
    {
        if file_input.name.as_str().unicode_len() == 0 {
            return Err(FsError::ValidationError);
        }
        if has_forbidden_chars(file_input.path.as_str()) {
            return Err(FsError::ValidationError);
        }
        match self.index.lookup_by_path_and_name(
            &self.chain,
            file_input.path.as_str(),
            &file_input.name,
        ) {
            Ok(_) => {
                return Err(FsError::AlreadyExists);
            },
            Err(_) => {},
        }
        let digests = self.chunks.chunk_file(&file_input.content);
        let fs_path = standardize_fs_path(file_input.path.as_str());
        let metadata = FileMetadata {
            name: file_input.name,
            author: String::from_str(author),
            path: fs_path,
            created: now,
            last_modified: now,
            size: file_input.content.len(),
            file_type: file_input.file_type,
            chunks_hashes: digests,
        };
        let root = self.create_file_metadata(metadata.clone());
        let pieces = ChunkStore::split(&file_input.content, CHUNK_SIZE);
        let file_chunks = wrap_chunks(pieces);
        proof {
            let cs = spec_chunks(file_input.content@, CHUNK_SIZE as int);
            lemma_chunks_flatten(file_input.content@, CHUNK_SIZE as int);
            if collision_free(cs) {
                lemma_create_then_read(old(self).chunk_map(), file_input.content@, metadata@);
            }
        }
        Ok(FileOutput { root, version: root, file_metadata: metadata, file_chunks })
    }

    /// Update a file: resolve its current latest version, store the new
    /// content's chunks, best-effort delete the superseded version's
    /// chunk records, and append the new version to the chain.  The
    /// deletion is unconditional: bytes another live file shares through
    /// dedup are dropped with it.
    pub fn update_file(
        &mut self,
        update_file_metadata_input: UpdateFileMetadataInput,
        now: u64,
    ) -> (r: Result<FileOutput, FsError>)
        requires
            old(self).wf(),
            old(self).next_id() < u64::MAX,
        ensures
            final(self).wf(),
            ({
                let root = update_file_metadata_input.original_file_metadata_hash;
                let res = spec_resolve(old(self).records(), old(self).pointers(), root);
                let cs = spec_chunks(update_file_metadata_input.new_content@, CHUNK_SIZE as int);
                match r {
                    Err(e) => e == FsError::NotFound && res is None && *final(self) == *old(self),
                    Ok(out) => res is Some && ({
                        let m_old = res->Some_0;
                        let m_new = updated_metadata(
                            m_old,
                            update_file_metadata_input.new_content@,
                            now,
                        );
                        out.root == root && out.version == old(self).next_id()
                            && out.file_metadata@ == m_new && chunk_views(out.file_chunks@) == cs
                            && chunk_views(out.file_chunks@).flatten()
                            == update_file_metadata_input.new_content@ && final(self).records()
                            == old(self).records().insert(out.version, m_new) && final(self).pointers() == old(self).pointers().push(
                            UpdatePointer { root, target: out.version, timestamp: now },
                        ) && final(self).chunk_map() == remove_digest_keys(
                            store_chunks(old(self).chunk_map(), cs),
                            m_old.chunks_hashes,
                        ) && final(self).index_map() == old(self).index_map() && final(self).next_id() == old(self).next_id() + 1 && (old(self).records().contains_key(root) ==> final(self).records().contains_key(root)
                            && final(self).records()[root] == old(self).records()[root]) && ((
                        forall|i: int|
                            0 <= i < old(self).pointers().len() && (#[trigger] old(self).pointers()[i]).root == root ==> old(self).pointers()[i].timestamp
                                <= now) ==> spec_resolve(
                            final(self).records(),
                            final(self).pointers(),
                            root,
                        ) == Some(m_new))
                    }),
                }
            }),
    {
        let root = update_file_metadata_input.original_file_metadata_hash;
        let old_meta = match self.chain.resolve(root) {
            Some(m) => m,
            None => {
                return Err(FsError::NotFound);
            },
        };
        let new_digests = self.chunks.chunk_file(&update_file_metadata_input.new_content);
        let ghost cm_after_put = self.chunks@;
        let n = old_meta.chunks_hashes.len();
        let mut i: usize = 0;
        proof {
            assert(old_meta@.chunks_hashes.take(0) =~= Seq::<Seq<u8>>::empty());
        }
        while i < n
            invariant
                self.chunks.wf(),
                self.index == old(self).index,
                self.chain == old(self).chain,
                n == old_meta.chunks_hashes@.len(),
                0 <= i <= n,
                self.chunks@ == remove_digest_keys(
                    cm_after_put,
                    old_meta@.chunks_hashes.take(i as int),
                ),
            decreases n - i,
        {
            proof {
                assert(old_meta@.chunks_hashes.take(i + 1).drop_last()
                    =~= old_meta@.chunks_hashes.take(i as int));
                assert(old_meta@.chunks_hashes.take(i + 1).last()
                    == old_meta.chunks_hashes@[i as int]@);
            }
            self.chunks.delete(&old_meta.chunks_hashes[i]);
            i = i + 1;
        }
        proof {
            assert(old_meta@.chunks_hashes.take(n as int) =~= old_meta@.chunks_hashes);
        }
        let metadata = FileMetadata {
            name: old_meta.name,
            author: old_meta.author,
            path: old_meta.path,
            created: old_meta.created,
            last_modified: now,
            size: update_file_metadata_input.new_content.len(),
            file_type: old_meta.file_type,
            chunks_hashes: new_digests,
        };
        proof {
            self.chain.lemma_resolve_bounds(root);
        }
        let version = self.chain.append_version(root, metadata.clone(), now);
        let pieces = ChunkStore::split(&update_file_metadata_input.new_content, CHUNK_SIZE);
        let file_chunks = wrap_chunks(pieces);
        proof {
            lemma_chunks_flatten(update_file_metadata_input.new_content@, CHUNK_SIZE as int);
            old(self).chain.lemma_wf_bounds();
            if old(self).records().contains_key(root) {
                assert(root != version);
            }
            let p = UpdatePointer { root, target: version, timestamp: now };
            if forall|i: int|
                0 <= i < old(self).pointers().len() && (#[trigger] old(self).pointers()[i]).root
                    == root ==> old(self).pointers()[i].timestamp <= now {
                assert forall|i: int|
                    0 <= i < old(self).pointers().len() && (#[trigger] old(self).pointers()[i]).root == root implies old(self).pointers()[i].timestamp
                    <= p.timestamp && old(self).pointers()[i].target < p.target by {}
                lemma_latest_after_push(old(self).pointers(), root, p);
            }
        }
        Ok(FileOutput { root, version, file_metadata: metadata, file_chunks })
    }

    /// Delete a file: remove its latest version's chunks, every version
    /// record in its chain, every update pointer, and the root record.
    /// The path index keeps its (now dangling) leaf entry, and chunk
    /// removal is unconditional even for bytes shared through dedup.
    /// Returns the deleted record ids.
    pub fn delete_file(&mut self, original_file_metadata_hash: u64) -> (r: Result<
        Vec<u64>,
        FsError,
    >)
        requires
            old(self).wf(),
        ensures
            final(self).wf(),
            ({
                let root = original_file_metadata_hash;
                let res = spec_resolve(old(self).records(), old(self).pointers(), root);
                match r {
                    Err(e) => e == FsError::NotFound && res is None && *final(self) == *old(self),
                    Ok(ids) => res is Some && ({
                        let m = res->Some_0;
                        final(self).records() == spec_delete_result(
                            old(self).records(),
                            old(self).pointers(),
                            root,
                        ).0 && ids@ == spec_delete_result(
                            old(self).records(),
                            old(self).pointers(),
                            root,
                        ).1 && final(self).pointers() == ptrs_without(old(self).pointers(), root)
                            && final(self).chunk_map() == remove_digest_keys(
                            old(self).chunk_map(),
                            m.chunks_hashes,
                        ) && final(self).index_map() == old(self).index_map() && final(self).next_id() == old(self).next_id() && spec_resolve(
                            final(self).records(),
                            final(self).pointers(),
                            root,
                        ) is None && (forall|i: int|
                            0 <= i < m.chunks_hashes.len() ==> !final(self).chunk_map().contains_key(#[trigger] m.chunks_hashes[i]))
                    }),
                }
            }),
    {
        let root = original_file_metadata_hash;
        let meta = match self.chain.resolve(root) {
            Some(m) => m,
            None => {
                return Err(FsError::NotFound);
            },
        };
        let n = meta.chunks_hashes.len();
        let mut i: usize = 0;
        proof {
            assert(meta@.chunks_hashes.take(0) =~= Seq::<Seq<u8>>::empty());
        }
        while i < n
            invariant
                self.chunks.wf(),
                self.index == old(self).index,
                self.chain == old(self).chain,
                n == meta.chunks_hashes@.len(),
                0 <= i <= n,
                self.chunks@ == remove_digest_keys(
                    old(self).chunk_map(),
                    meta@.chunks_hashes.take(i as int),
                ),
            decreases n - i,
        {
            proof {
                assert(meta@.chunks_hashes.take(i + 1).drop_last() =~= meta@.chunks_hashes.take(
                    i as int,
                ));
                assert(meta@.chunks_hashes.take(i + 1).last() == meta.chunks_hashes@[i as int]@);
            }
            self.chunks.delete(&meta.chunks_hashes[i]);
            i = i + 1;
        }
        proof {
            assert(meta@.chunks_hashes.take(n as int) =~= meta@.chunks_hashes);
        }
        let ids = self.chain.delete_chain(root);
        proof {
            old(self).chain.lemma_wf_bounds();
            lemma_ptrs_without_props(old(self).pointers(), root, old(self).next_id());
            lemma_latest_none(self.chain.pointers(), root);
            assert(!self.chain.records().contains_key(root));
            assert forall|i: int| 0 <= i < meta@.chunks_hashes.len() implies !self.chunks@
                .contains_key(#[trigger] meta@.chunks_hashes[i]) by {
                lemma_remove_digest_keys_absent(
                    old(self).chunk_map(),
                    meta@.chunks_hashes,
                    i,
                );
            }
        }
        Ok(ids)
    }
}

} // verus!
