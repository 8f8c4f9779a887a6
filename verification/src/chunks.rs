//! Content-addressed storage for bounded-size byte chunks.
//!
//! A file's content is split into contiguous chunks of at most `CHUNK_SIZE`
//! bytes; each chunk is stored under the digest of its bytes, so identical
//! bytes map to the same identity and a repeated put stores nothing new.

use vstd::prelude::*;

use crate::assoc::{
    assoc_map, distinct_keys, lemma_assoc_map_contains, lemma_assoc_map_dom_len,
    lemma_assoc_map_index, lemma_assoc_map_push, lemma_assoc_map_remove, lemma_assoc_map_update,
};
use crate::errors::FsError;
use crate::hashing::{bytes_eq, compute_hash, hash_of};
use crate::metadata::FileChunk;
use vstd::pervasive::VecAdditionalExecFns;
use vstd::slice::{slice_subrange, slice_to_vec};

verus! {

/// The size every chunk but the last one has.
pub const CHUNK_SIZE: usize = 1024 * 1024;

/// The chunks a byte string is split into: contiguous slices of `sz` bytes,
/// the final slice possibly shorter, an empty input yielding no chunks.
pub open spec fn spec_chunks(content: Seq<u8>, sz: int) -> Seq<Seq<u8>>
    decreases content.len(),
        when sz > 0
{
    if content.len() == 0 {
        Seq::empty()
    } else if content.len() <= sz {
        seq![content]
    } else {
        seq![content.take(sz)] + spec_chunks(content.skip(sz), sz)
    }
}

/// The identities of a list of chunks, in order.
pub open spec fn digests_of(chunks: Seq<Seq<u8>>) -> Seq<Seq<u8>> {
    chunks.map_values(|c: Seq<u8>| hash_of(c))
}

/// The byte strings a list of byte vectors holds, in order.
pub open spec fn views_of(s: Seq<Vec<u8>>) -> Seq<Seq<u8>> {
    s.map_values(|v: Vec<u8>| v@)
}

/// Appending a vector appends its bytes to the list of byte strings.
pub proof fn lemma_views_of_push(s: Seq<Vec<u8>>, e: Vec<u8>)
    ensures
        views_of(s.push(e)) == views_of(s).push(e@),
{
    assert(views_of(s.push(e)) =~= views_of(s).push(e@));
}

/// The store contents after putting `chunks` in order.
pub open spec fn store_chunks(m: Map<Seq<u8>, Seq<u8>>, chunks: Seq<Seq<u8>>) -> Map<
    Seq<u8>,
    Seq<u8>,
>
    decreases chunks.len(),
{
    if chunks.len() == 0 {
        m
    } else {
        store_chunks(m, chunks.drop_last()).insert(hash_of(chunks.last()), chunks.last())
    }
}

/// No two distinct chunks of the list share a digest.  Content addressing
/// assumes this of a collision-resistant digest; statements that read
/// chunks back through their identities hold under it.
pub open spec fn collision_free(chunks: Seq<Seq<u8>>) -> bool {
    forall|i: int, j: int|
        0 <= i < chunks.len() && 0 <= j < chunks.len() && hash_of(#[trigger] chunks[i]) == hash_of(
            #[trigger] chunks[j],
        ) ==> chunks[i] == chunks[j]
}

/// Every chunk a byte string splits into is nonempty and at most `sz` long.
pub proof fn lemma_spec_chunks_bounds(content: Seq<u8>, sz: int)
    requires
        sz > 0,
    ensures
        forall|i: int|
            0 <= i < spec_chunks(content, sz).len() ==> 0 < (#[trigger] spec_chunks(content, sz)[i]).len()
                <= sz,
    decreases content.len(),
{
    if content.len() > sz {
        lemma_spec_chunks_bounds(content.skip(sz), sz);
        let s = spec_chunks(content, sz);
        let rest = spec_chunks(content.skip(sz), sz);
        assert forall|i: int| 0 <= i < s.len() implies 0 < (#[trigger] s[i]).len() <= sz by {
            if i > 0 {
                assert(s[i] == rest[i - 1]);
            }
        }
    }
}

/// Concatenating the chunks of a byte string, in order, reproduces it.
pub proof fn lemma_chunks_flatten(content: Seq<u8>, sz: int)
    requires
        sz > 0,
    ensures
        spec_chunks(content, sz).flatten() == content,
    decreases content.len(),
{
    if content.len() == 0 {
        assert(spec_chunks(content, sz).flatten() =~= content);
    } else if content.len() <= sz {
        let s = spec_chunks(content, sz);
        assert(s.len() == 1);
        assert(s.first() == content);
        assert(s.drop_first() =~= Seq::<Seq<u8>>::empty());
        assert(Seq::<Seq<u8>>::empty().flatten() == Seq::<u8>::empty());
        assert(s.flatten() == s.first() + s.drop_first().flatten());
        assert(s.flatten() =~= content);
    } else {
        lemma_chunks_flatten(content.skip(sz), sz);
        let rest = spec_chunks(content.skip(sz), sz);
        let s = spec_chunks(content, sz);
        assert(s.first() == content.take(sz));
        assert(s.drop_first() =~= rest);
        assert(s.flatten() == content.take(sz) + rest.flatten());
        assert(content.take(sz) + content.skip(sz) =~= content);
    }
}

/// Every chunk put in order is afterwards stored under its own digest,
/// provided no two distinct chunks of the list collide.
pub proof fn lemma_store_chunks_read_back(m: Map<Seq<u8>, Seq<u8>>, chunks: Seq<Seq<u8>>, i: int)
    requires
        collision_free(chunks),
        0 <= i < chunks.len(),
    ensures
        store_chunks(m, chunks).contains_key(hash_of(chunks[i])),
        store_chunks(m, chunks)[hash_of(chunks[i])] == chunks[i],
    decreases chunks.len(),
{
    let dl = chunks.drop_last();
    assert(forall|a: int, b: int|
        0 <= a < dl.len() && 0 <= b < dl.len() && hash_of(#[trigger] dl[a]) == hash_of(
            #[trigger] dl[b],
        ) ==> dl[a] == dl[b]) by {
        assert forall|a: int, b: int|
            0 <= a < dl.len() && 0 <= b < dl.len() && hash_of(#[trigger] dl[a]) == hash_of(
                #[trigger] dl[b],
            ) implies dl[a] == dl[b] by {
            assert(dl[a] == chunks[a]);
            assert(dl[b] == chunks[b]);
        }
    }
    if i == chunks.len() - 1 {
    } else {
        lemma_store_chunks_read_back(m, dl, i);
        assert(dl[i] == chunks[i]);
        if hash_of(chunks.last()) == hash_of(chunks[i]) {
            assert(chunks[chunks.len() - 1] == chunks[i]);
        }
    }
}

/// The store contents after unconditionally removing each digest of a list.
pub open spec fn remove_digest_keys(m: Map<Seq<u8>, Seq<u8>>, ds: Seq<Seq<u8>>) -> Map<
    Seq<u8>,
    Seq<u8>,
>
    decreases ds.len(),
{
    if ds.len() == 0 {
        m
    } else {
        remove_digest_keys(m, ds.drop_last()).remove(ds.last())
    }
}

/// After removing a list of digests, none of them is stored.
pub proof fn lemma_remove_digest_keys_absent(m: Map<Seq<u8>, Seq<u8>>, ds: Seq<Seq<u8>>, i: int)
    requires
        0 <= i < ds.len(),
    ensures
        !remove_digest_keys(m, ds).contains_key(ds[i]),
    decreases ds.len(),
{
    if i < ds.len() - 1 {
        lemma_remove_digest_keys_absent(m, ds.drop_last(), i);
        assert(ds.drop_last()[i] == ds[i]);
    }
}

/// Dedup idempotence: putting the same bytes twice yields the same identity
/// and leaves the store exactly as one put does.
pub proof fn lemma_put_idempotent(m: Map<Seq<u8>, Seq<u8>>, bytes: Seq<u8>)
    ensures
        m.insert(hash_of(bytes), bytes).insert(hash_of(bytes), bytes) == m.insert(
            hash_of(bytes),
            bytes,
        ),
{
    assert(m.insert(hash_of(bytes), bytes).insert(hash_of(bytes), bytes) =~= m.insert(
        hash_of(bytes),
        bytes,
    ));
}

/// Content-addressed storage for chunks of at most `CHUNK_SIZE` bytes.
pub struct ChunkStore {
    entries: Vec<(Vec<u8>, Vec<u8>)>,
}

impl View for ChunkStore {
    type V = Map<Seq<u8>, Seq<u8>>;

    /// The store, as the map from chunk identity to chunk bytes.
    closed spec fn view(&self) -> Map<Seq<u8>, Seq<u8>> {
        assoc_map(self.entries@)
    }
}

impl ChunkStore {
    /// Each chunk is recorded once, under the digest of its own bytes.
    pub closed spec fn wf(&self) -> bool {
        &&& distinct_keys(self.entries@)
        &&& forall|i: int|
            0 <= i < self.entries@.len() ==> (#[trigger] self.entries@[i].0)@ == hash_of(
                self.entries@[i].1@,
            )
    }

    pub fn new() -> (store: ChunkStore)
        ensures
            store.wf(),
            store@ == Map::<Seq<u8>, Seq<u8>>::empty(),
    {
        ChunkStore { entries: Vec::new() }
    }

    /// The index of the entry stored under `digest`, if any.
    fn find(&self, digest: &[u8]) -> (r: Option<usize>)
        ensures
            match r {
                Some(i) => i < self.entries@.len() && self.entries@[i as int].0@ == digest@,
                None => forall|j: int|
                    0 <= j < self.entries@.len() ==> (#[trigger] self.entries@[j].0)@ != digest@,
            },
    {
        let mut i: usize = 0;
        while i < self.entries.len()
            invariant
                0 <= i <= self.entries@.len(),
                forall|j: int| 0 <= j < i ==> (#[trigger] self.entries@[j].0)@ != digest@,
            decreases self.entries@.len() - i,
        {
            if bytes_eq(self.entries[i].0.as_slice(), digest) {
                return Some(i);
            }
            i = i + 1;
        }
        None
    }

    /// How many chunks the store holds.
    pub fn num_chunks(&self) -> (n: usize)
        requires
            self.wf(),
        ensures
            n as nat == self@.dom().len(),
    {
        proof {
            lemma_assoc_map_dom_len(self.entries@);
        }
        self.entries.len()
    }

    /// Store a chunk under the digest of its bytes.  If the same identity is
    /// already present with the same bytes, this is a no-op.
    pub fn put(&mut self, bytes: Vec<u8>) -> (digest: Vec<u8>)
        requires
            old(self).wf(),
            bytes@.len() <= CHUNK_SIZE,
        ensures
            final(self).wf(),
            digest@ == hash_of(bytes@),
            digest@.len() == 32,
            final(self)@ == old(self)@.insert(hash_of(bytes@), bytes@),
    {
        let digest = compute_hash(&bytes);
        match self.find(digest.as_slice()) {
            Some(i) => {
                proof {
                    lemma_assoc_map_index(self.entries@, i as int);
                }
                if bytes_eq(self.entries[i].1.as_slice(), bytes.as_slice()) {
                    proof {
                        assert(self@.insert(hash_of(bytes@), bytes@) =~= self@);
                    }
                } else {
                    // A digest clash with different bytes: content addressing
                    // keeps one record per identity, so the new bytes replace
                    // the old ones.
                    let replacement = (slice_to_vec(digest.as_slice()), bytes);
                    proof {
                        lemma_assoc_map_update(self.entries@, i as int, replacement);
                    }
                    self.entries.set(i, replacement);
                }
            },
            None => {
                let entry = (slice_to_vec(digest.as_slice()), bytes);
                proof {
                    lemma_assoc_map_push(self.entries@, entry);
                }
                self.entries.push(entry);
            },
        }
        digest
    }

    /// Store a chunk record and hand back what was stored: the identity
    /// and the bytes.  Storing an already-present chunk writes nothing new.
    pub fn create_file_chunk(&mut self, file_chunk: FileChunk) -> (r: (Vec<u8>, FileChunk))
        requires
            old(self).wf(),
            file_chunk@.len() <= CHUNK_SIZE,
        ensures
            final(self).wf(),
            final(self)@ == old(self)@.insert(hash_of(file_chunk@), file_chunk@),
            r.0@ == hash_of(file_chunk@),
            r.1@ == file_chunk@,
    {
        let bytes = file_chunk.0;
        let copy = slice_to_vec(bytes.as_slice());
        let digest = self.put(bytes);
        (digest, FileChunk(copy))
    }

    /// The chunk record stored under `digest`; fails `NotFound` if absent.
    pub fn get_file_chunk(&self, digest: &Vec<u8>) -> (r: Result<FileChunk, FsError>)
        requires
            self.wf(),
        ensures
            match r {
                Ok(c) => self@.contains_key(digest@) && c@ == self@[digest@],
                Err(e) => e == FsError::NotFound && !self@.contains_key(digest@),
            },
    {
        match self.get(digest) {
            Ok(bytes) => Ok(FileChunk(bytes)),
            Err(e) => Err(e),
        }
    }

    /// The bytes stored under `digest`; fails `NotFound` if absent.
    pub fn get(&self, digest: &Vec<u8>) -> (r: Result<Vec<u8>, FsError>)
        requires
            self.wf(),
        ensures
            match r {
                Ok(bytes) => self@.contains_key(digest@) && bytes@ == self@[digest@],
                Err(e) => e == FsError::NotFound && !self@.contains_key(digest@),
            },
    {
        proof {
            lemma_assoc_map_contains(self.entries@, digest@);
        }
        match self.find(digest.as_slice()) {
            Some(i) => {
                proof {
                    lemma_assoc_map_index(self.entries@, i as int);
                }
                Ok(slice_to_vec(self.entries[i].1.as_slice()))
            },
            None => Err(FsError::NotFound),
        }
    }

    /// Unconditional removal: afterwards nothing is stored under `digest`.
    pub fn delete(&mut self, digest: &Vec<u8>)
        requires
            old(self).wf(),
        ensures
            final(self).wf(),
            final(self)@ == old(self)@.remove(digest@),
    {
        proof {
            lemma_assoc_map_contains(self.entries@, digest@);
        }
        match self.find(digest.as_slice()) {
            Some(i) => {
                proof {
                    lemma_assoc_map_remove(self.entries@, i as int);
                }
                self.entries.remove(i);
            },
            None => {
                proof {
                    assert(self@.remove(digest@) =~= self@);
                }
            },
        }
    }

    /// Split a byte string into chunks of at most `sz` bytes.
    pub fn split(content: &Vec<u8>, sz: usize) -> (chunks: Vec<Vec<u8>>)
        requires
            sz > 0,
        ensures
            views_of(chunks@) == spec_chunks(content@, sz as int),
    {
        let mut chunks: Vec<Vec<u8>> = Vec::new();
        let mut start: usize = 0;
        proof {
            assert(content@.skip(0) =~= content@);
            assert(views_of(chunks@) =~= Seq::<Seq<u8>>::empty());
            assert(views_of(chunks@) + spec_chunks(content@.skip(0), sz as int) =~= spec_chunks(
                content@,
                sz as int,
            ));
        }
        while start < content.len()
            invariant
                sz > 0,
                0 <= start <= content@.len(),
                spec_chunks(content@, sz as int) == views_of(chunks@) + spec_chunks(
                    content@.skip(start as int),
                    sz as int,
                ),
            decreases content@.len() - start,
        {
            let end: usize = if content.len() - start < sz {
                content.len()
            } else {
                start + sz
            };
            let piece = slice_to_vec(slice_subrange(content.as_slice(), start, end));
            let ghost old_vs = views_of(chunks@);
            let ghost pv = piece@;
            proof {
                let rem = content@.skip(start as int);
                if rem.len() <= sz as int {
                    assert(pv =~= rem);
                    assert(content@.skip(end as int) =~= Seq::<u8>::empty());
                    assert(spec_chunks(rem, sz as int) == seq![rem]);
                    assert(seq![pv] + spec_chunks(content@.skip(end as int), sz as int)
                        =~= spec_chunks(rem, sz as int));
                } else {
                    assert(pv =~= rem.take(sz as int));
                    assert(rem.skip(sz as int) =~= content@.skip(end as int));
                    assert(seq![pv] + spec_chunks(content@.skip(end as int), sz as int)
                        == spec_chunks(rem, sz as int));
                }
                lemma_views_of_push(chunks@, piece);
            }
            chunks.push(piece);
            proof {
                assert(old_vs + (seq![pv] + spec_chunks(content@.skip(end as int), sz as int))
                    =~= old_vs.push(pv) + spec_chunks(content@.skip(end as int), sz as int));
            }
            start = end;
        }
        proof {
            assert(content@.skip(start as int) =~= Seq::<u8>::empty());
            assert(views_of(chunks@) + spec_chunks(content@.skip(start as int), sz as int)
                =~= views_of(chunks@));
        }
        chunks
    }

    /// Split `content` into chunks of at most `CHUNK_SIZE` bytes, store each,
    /// and return the list of their identities in order.
    pub fn chunk_file(&mut self, content: &Vec<u8>) -> (digests: Vec<Vec<u8>>)
        requires
            old(self).wf(),
        ensures
            final(self).wf(),
            views_of(digests@) == digests_of(spec_chunks(content@, CHUNK_SIZE as int)),
            final(self)@ == store_chunks(old(self)@, spec_chunks(content@, CHUNK_SIZE as int)),
    {
        let chunks = Self::split(content, CHUNK_SIZE);
        let ghost cs = spec_chunks(content@, CHUNK_SIZE as int);
        let mut digests: Vec<Vec<u8>> = Vec::new();
        let mut i: usize = 0;
        proof {
            assert(cs.take(0) =~= Seq::<Seq<u8>>::empty());
            assert(views_of(digests@) =~= digests_of(cs.take(0)));
        }
        while i < chunks.len()
            invariant
                old(self).wf(),
                self.wf(),
                cs == spec_chunks(content@, CHUNK_SIZE as int),
                views_of(chunks@) == cs,
                0 <= i <= chunks@.len(),
                views_of(digests@) == digests_of(cs.take(i as int)),
                self@ == store_chunks(old(self)@, cs.take(i as int)),
            decreases chunks@.len() - i,
        {
            let chunk = slice_to_vec(chunks[i].as_slice());
            proof {
                lemma_spec_chunks_bounds(content@, CHUNK_SIZE as int);
                assert(views_of(chunks@)[i as int] == chunks@[i as int]@);
                assert(chunk@ == cs[i as int]);
                assert(cs[i as int].len() <= CHUNK_SIZE as int);
            }
            let digest = self.put(chunk);
            let ghost old_vs = views_of(digests@);
            proof {
                lemma_views_of_push(digests@, digest);
            }
            digests.push(digest);
            proof {
                assert(cs.take(i + 1).drop_last() =~= cs.take(i as int));
                assert(cs.take(i + 1).last() == cs[i as int]);
                assert(views_of(digests@) == old_vs.push(hash_of(cs[i as int])));
                assert(digests_of(cs.take(i + 1)) =~= digests_of(cs.take(i as int)).push(
                    hash_of(cs[i as int]),
                ));
            }
            i = i + 1;
        }
        proof {
            assert(cs.take(cs.len() as int) =~= cs);
        }
        digests
    }
}

} // verus!
