//! The records a file is made of, and the validation they must pass.

use vstd::prelude::*;

use crate::chunks::views_of;
use crate::errors::FsError;
use vstd::slice::slice_to_vec;
use vstd::string::StrSliceExecFns;

verus! {

/// One stored slice of a file's content.
pub struct FileChunk(pub Vec<u8>);

impl View for FileChunk {
    type V = Seq<u8>;

    open spec fn view(&self) -> Seq<u8> {
        self.0@
    }
}

/// The byte strings a list of chunk records holds, in order.
pub open spec fn chunk_views(s: Seq<FileChunk>) -> Seq<Seq<u8>> {
    s.map_values(|c: FileChunk| c@)
}

/// What a metadata record says, mathematically.
pub ghost struct MetadataView {
    pub name: Seq<char>,
    pub author: Seq<char>,
    pub path: Seq<char>,
    pub created: u64,
    pub last_modified: u64,
    pub size: nat,
    pub file_type: Seq<char>,
    pub chunks_hashes: Seq<Seq<u8>>,
}

/// One immutable version of a file: its identifying names, timestamps,
/// size, and the ordered identities of its content chunks.
pub struct FileMetadata {
    pub name: String,
    pub author: String,
    pub path: String,
    pub created: u64,
    pub last_modified: u64,
    pub size: usize,
    pub file_type: String,
    pub chunks_hashes: Vec<Vec<u8>>,
}

impl View for FileMetadata {
    type V = MetadataView;

    open spec fn view(&self) -> MetadataView {
        MetadataView {
            name: self.name@,
            author: self.author@,
            path: self.path@,
            created: self.created,
            last_modified: self.last_modified,
            size: self.size as nat,
            file_type: self.file_type@,
            chunks_hashes: views_of(self.chunks_hashes@),
        }
    }
}

/// Copy a list of chunk identities.
pub fn copy_digests(v: &Vec<Vec<u8>>) -> (r: Vec<Vec<u8>>)
    ensures
        views_of(r@) == views_of(v@),
{
    let mut r: Vec<Vec<u8>> = Vec::new();
    let mut i: usize = 0;
    proof {
        assert(views_of(r@) =~= views_of(v@.take(0)));
    }
    while i < v.len()
        invariant
            0 <= i <= v@.len(),
            views_of(r@) == views_of(v@.take(i as int)),
        decreases v@.len() - i,
    {
        let d = slice_to_vec(v[i].as_slice());
        let ghost old_vs = views_of(r@);
        r.push(d);
        proof {
            assert(views_of(r@) =~= old_vs.push(v@[i as int]@));
            assert(views_of(v@.take(i + 1)) =~= views_of(v@.take(i as int)).push(v@[i as int]@));
        }
        i = i + 1;
    }
    proof {
        assert(v@.take(v@.len() as int) =~= v@);
    }
    r
}

impl Clone for FileMetadata {
    /// A clone says exactly what the original says.
    fn clone(&self) -> (res: Self)
        ensures
            res@ == self@,
    {
        let res = FileMetadata {
            name: self.name.clone(),
            author: self.author.clone(),
            path: self.path.clone(),
            created: self.created,
            last_modified: self.last_modified,
            size: self.size,
            file_type: self.file_type.clone(),
            chunks_hashes: copy_digests(&self.chunks_hashes),
        };
        res
    }
}

/// The input `create_file` takes: the identifying names and the content.
pub struct FileInput {
    pub name: String,
    pub path: String,
    pub file_type: String,
    pub content: Vec<u8>,
}

/// What `create_file` and `update_file` hand back: the stored metadata
/// record, its id (and the file's permanent root id), and the chunk
/// records the content was stored as.
pub struct FileOutput {
    /// The file's permanent root identity.
    pub root: u64,
    /// The id of the metadata record returned (the root for a creation,
    /// the fresh version for an update).
    pub version: u64,
    pub file_metadata: FileMetadata,
    pub file_chunks: Vec<FileChunk>,
}

/// The input `update_file` takes: the root identity and the new content.
pub struct UpdateFileMetadataInput {
    pub original_file_metadata_hash: u64,
    pub new_content: Vec<u8>,
}

/// The characters a path may not hold.
pub open spec fn spec_is_forbidden_char(c: char) -> bool {
    c == '<' || c == '>' || c == ':' || c == '"' || c == '|' || c == '?' || c == '*' || c == '.'
}

/// Whether a path holds a forbidden character.
pub open spec fn spec_has_forbidden_chars(path: Seq<char>) -> bool {
    exists|i: int| 0 <= i < path.len() && spec_is_forbidden_char(#[trigger] path[i])
}

/// Whether a metadata record passes validation: a nonempty name and a
/// path free of forbidden characters.
pub open spec fn spec_valid_metadata(name: Seq<char>, path: Seq<char>) -> bool {
    name.len() > 0 && !spec_has_forbidden_chars(path)
}

/// Whether a path holds any of the forbidden characters.
pub fn has_forbidden_chars(path: &str) -> (r: bool)
    ensures
        r == spec_has_forbidden_chars(path@),
{
    let n = path.unicode_len();
    let mut i: usize = 0;
    while i < n
        invariant
            n == path@.len(),
            0 <= i <= n,
            forall|j: int| 0 <= j < i ==> !spec_is_forbidden_char(#[trigger] path@[j]),
        decreases n - i,
    {
        let c = path.get_char(i);
        if c == '<' || c == '>' || c == ':' || c == '"' || c == '|' || c == '?' || c == '*' || c
            == '.' {
            return true;
        }
        i = i + 1;
    }
    false
}

/// Rejects an empty name and a path holding a forbidden character;
/// everything else passes.
pub fn validate_create_file_metadata(file_metadata: &FileMetadata) -> (r: Result<(), FsError>)
    ensures
        r is Ok <==> spec_valid_metadata(file_metadata@.name, file_metadata@.path),
        r is Err ==> r->Err_0 == FsError::ValidationError,
{
    if file_metadata.name.as_str().unicode_len() == 0 {
        return Err(FsError::ValidationError);
    }
    if has_forbidden_chars(file_metadata.path.as_str()) {
        return Err(FsError::ValidationError);
    }
    Ok(())
}

} // verus!
