//! The pure state of the filesystem watcher that mirrors local files
//! into the store's cache.
//!
//! The watcher daemon itself does the I/O: it reads modification times,
//! receives change events and rewrites the cache file.  What it decides
//! — how a change event is classified against the remembered state, which
//! paths are excluded, and how the cache list is edited — lives here.

use vstd::prelude::*;

use crate::assoc::{
    assoc_map, distinct_keys, lemma_assoc_map_contains, lemma_assoc_map_index,
    lemma_assoc_map_push, lemma_assoc_map_remove, lemma_assoc_map_update,
};
use crate::paths::{str_eq, string_views};
use vstd::pervasive::VecAdditionalExecFns;
use vstd::string::{StrSliceExecFns, StringExecFns};

verus! {

/// One mirrored file of the cache: its path and its content.
pub struct FileData {
    pub path: String,
    pub content: String,
}

impl Clone for FileData {
    /// A clone says exactly what the original says.
    fn clone(&self) -> (res: Self)
        ensures
            res == *self,
    {
        FileData { path: self.path.clone(), content: self.content.clone() }
    }
}

/// The cache list with `f` stored under its path: the first entry with
/// the same path is replaced, otherwise `f` is appended.
pub open spec fn spec_upsert(files: Seq<FileData>, f: FileData) -> Seq<FileData>
    decreases files.len(),
{
    if files.len() == 0 {
        seq![f]
    } else if files.first().path@ == f.path@ {
        seq![f] + files.drop_first()
    } else {
        seq![files.first()] + spec_upsert(files.drop_first(), f)
    }
}

/// The cache list with the first entry of `path` removed.
pub open spec fn spec_remove_path(files: Seq<FileData>, path: Seq<char>) -> Seq<FileData>
    decreases files.len(),
{
    if files.len() == 0 {
        files
    } else if files.first().path@ == path {
        files.drop_first()
    } else {
        seq![files.first()] + spec_remove_path(files.drop_first(), path)
    }
}

/// Where the first entries hold other paths, an upsert edits position
/// `i`: in place if `i` is in range, else by appending.
proof fn lemma_upsert_at(files: Seq<FileData>, f: FileData, i: int)
    requires
        0 <= i <= files.len(),
        forall|j: int| 0 <= j < i ==> (#[trigger] files[j]).path@ != f.path@,
        i < files.len() ==> files[i].path@ == f.path@,
    ensures
        i < files.len() ==> spec_upsert(files, f) == files.update(i, f),
        i == files.len() ==> spec_upsert(files, f) == files.push(f),
    decreases files.len(),
{
    if files.len() == 0 {
        assert(spec_upsert(files, f) =~= files.push(f));
    } else if i == 0 {
        if i < files.len() {
            assert(spec_upsert(files, f) =~= files.update(0, f));
        }
    } else {
        let d = files.drop_first();
        assert(files[0].path@ != f.path@);
        assert(forall|j: int| 0 <= j < i - 1 ==> (#[trigger] d[j]).path@ != f.path@) by {
            assert forall|j: int| 0 <= j < i - 1 implies (#[trigger] d[j]).path@ != f.path@ by {
                assert(d[j] == files[j + 1]);
            }
        }
        if i - 1 < d.len() {
            assert(d[i - 1] == files[i]);
        }
        lemma_upsert_at(d, f, i - 1);
        if i < files.len() {
            assert(seq![files.first()] + d.update(i - 1, f) =~= files.update(i, f));
        } else {
            assert(seq![files.first()] + d.push(f) =~= files.push(f));
        }
    }
}

/// Where the first entries hold other paths, a removal drops position
/// `i`, or nothing when no entry holds `path`.
proof fn lemma_remove_path_at(files: Seq<FileData>, path: Seq<char>, i: int)
    requires
        0 <= i <= files.len(),
        forall|j: int| 0 <= j < i ==> (#[trigger] files[j]).path@ != path,
        i < files.len() ==> files[i].path@ == path,
    ensures
        i < files.len() ==> spec_remove_path(files, path) == files.remove(i),
        i == files.len() ==> spec_remove_path(files, path) == files,
    decreases files.len(),
{
    if files.len() == 0 {
    } else if i == 0 {
        if i < files.len() {
            assert(files.drop_first() =~= files.remove(0));
        }
    } else {
        let d = files.drop_first();
        assert(files[0].path@ != path);
        assert(forall|j: int| 0 <= j < i - 1 ==> (#[trigger] d[j]).path@ != path) by {
            assert forall|j: int| 0 <= j < i - 1 implies (#[trigger] d[j]).path@ != path by {
                assert(d[j] == files[j + 1]);
            }
        }
        if i - 1 < d.len() {
            assert(d[i - 1] == files[i]);
        }
        lemma_remove_path_at(d, path, i - 1);
        if i < files.len() {
            assert(seq![files.first()] + d.remove(i - 1) =~= files.remove(i));
        } else {
            assert(seq![files.first()] + d =~= files);
        }
    }
}

impl FileData {
    pub fn new(path: String, content: String) -> (r: Self)
        ensures
            r.path == path,
            r.content == content,
    {
        Self { path, content }
    }

    /// The index of the first cache entry with this file's path.
    fn position_in(&self, files: &Vec<FileData>) -> (r: Option<usize>)
        ensures
            match r {
                Some(i) => i < files@.len() && files@[i as int].path@ == self.path@ && forall|
                    j: int,
                |
                    0 <= j < i ==> (#[trigger] files@[j]).path@ != self.path@,
                None => forall|j: int|
                    0 <= j < files@.len() ==> (#[trigger] files@[j]).path@ != self.path@,
            },
    {
        let mut i: usize = 0;
        while i < files.len()
            invariant
                0 <= i <= files@.len(),
                forall|j: int| 0 <= j < i ==> (#[trigger] files@[j]).path@ != self.path@,
            decreases files@.len() - i,
        {
            if str_eq(files[i].path.as_str(), self.path.as_str()) {
                return Some(i);
            }
            i = i + 1;
        }
        None
    }

    /// Store this file in the cache list: replace the first entry with
    /// the same path, or append.
    pub fn save_into(&self, files: &mut Vec<FileData>)
        ensures
            final(files)@ == spec_upsert(old(files)@, *self),
    {
        match self.position_in(files) {
            Some(i) => {
                proof {
                    lemma_upsert_at(files@, *self, i as int);
                }
                files.set(i, self.clone());
            },
            None => {
                proof {
                    lemma_upsert_at(files@, *self, files@.len() as int);
                }
                files.push(self.clone());
            },
        }
    }

    /// Drop the first cache entry with this file's path, if any.
    pub fn delete_from(&self, files: &mut Vec<FileData>)
        ensures
            final(files)@ == spec_remove_path(old(files)@, self.path@),
    {
        match self.position_in(files) {
            Some(i) => {
                proof {
                    lemma_remove_path_at(files@, self.path@, i as int);
                }
                files.remove(i);
            },
            None => {
                proof {
                    lemma_remove_path_at(files@, self.path@, files@.len() as int);
                }
            },
        }
    }
}

/// The watcher's configuration: where the mirrored tree lives, and which
/// path fragments are excluded from watching.
pub struct Config {
    pub location: String,
    pub excludes: Option<Vec<String>>,
}

/// The default watch location.
pub open spec fn spec_default_location() -> Seq<char> {
    seq!['.', '/', 'f', 'i', 'l', 'e', 's']
}

impl Config {
    /// The configuration used when none is given: mirror `./files`,
    /// exclude nothing.
    pub fn default() -> (c: Config)
        ensures
            c.location@ == spec_default_location(),
            c.excludes is Some,
            c.excludes->0@.len() == 0,
    {
        let c = Config { location: String::from_str("./files"), excludes: Some(Vec::new()) };
        proof {
            reveal_strlit("./files");
            assert(c.location@ =~= spec_default_location());
        }
        c
    }
}

/// How a change event is classified against the remembered state.
#[derive(Clone, Copy, Debug, PartialEq, Eq, Structural)]
pub enum ChangeType {
    Created,
    Modified,
    Removed,
}

/// What a change at `path` with modification time `modified` means given
/// the remembered times: a strictly newer time than the remembered one is
/// a modification, anything else a creation.
pub open spec fn spec_compare(files: Map<Seq<char>, u64>, path: Seq<char>, modified: u64) -> ChangeType {
    if files.contains_key(path) {
        if files[path] < modified {
            ChangeType::Modified
        } else {
            ChangeType::Created
        }
    } else {
        ChangeType::Created
    }
}

/// The watcher's memory: the last known modification time of each path.
pub struct State {
    files: Vec<(String, u64)>,
}

impl View for State {
    type V = Map<Seq<char>, u64>;

    /// The remembered modification time of each path.
    closed spec fn view(&self) -> Map<Seq<char>, u64> {
        assoc_map(self.files@)
    }
}

impl State {
    /// Each path is remembered once.
    pub closed spec fn wf(&self) -> bool {
        distinct_keys(self.files@)
    }

    pub fn new() -> (s: Self)
        ensures
            s.wf(),
            s@ == Map::<Seq<char>, u64>::empty(),
    {
        Self { files: Vec::new() }
    }

    /// The index of the entry for `path`, if any.
    fn find(&self, path: &str) -> (r: Option<usize>)
        ensures
            match r {
                Some(i) => i < self.files@.len() && self.files@[i as int].0@ == path@,
                None => forall|j: int|
                    0 <= j < self.files@.len() ==> (#[trigger] self.files@[j]).0@ != path@,
            },
    {
        let mut i: usize = 0;
        while i < self.files.len()
            invariant
                0 <= i <= self.files@.len(),
                forall|j: int| 0 <= j < i ==> (#[trigger] self.files@[j]).0@ != path@,
            decreases self.files@.len() - i,
        {
            if str_eq(self.files[i].0.as_str(), path) {
                return Some(i);
            }
            i = i + 1;
        }
        None
    }

    /// Remember `modified` as the last known time of `path`.
    pub fn update(&mut self, path: &str, modified: u64)
        requires
            old(self).wf(),
        ensures
            final(self).wf(),
            final(self)@ == old(self)@.insert(path@, modified),
    {
        match self.find(path) {
            Some(i) => {
                let entry = (String::from_str(path), modified);
                proof {
                    lemma_assoc_map_update(self.files@, i as int, entry);
                }
                self.files.set(i, entry);
            },
            None => {
                let entry = (String::from_str(path), modified);
                proof {
                    lemma_assoc_map_push(self.files@, entry);
                    assert forall|a: int, b: int|
                        0 <= a < b < self.files@.push(entry).len() implies self.files@.push(
                        entry,
                    )[a].0@ != self.files@.push(entry)[b].0@ by {
                        if b < self.files@.len() {
                            assert(self.files@[a].0@ != self.files@[b].0@);
                        } else {
                            assert(self.files@[a].0@ != path@);
                        }
                    }
                }
                self.files.push(entry);
            },
        }
    }

    /// Forget `path`.
    pub fn remove(&mut self, path: &str)
        requires
            old(self).wf(),
        ensures
            final(self).wf(),
            final(self)@ == old(self)@.remove(path@),
    {
        proof {
            lemma_assoc_map_contains(self.files@, path@);
        }
        match self.find(path) {
            Some(i) => {
                proof {
                    lemma_assoc_map_remove(self.files@, i as int);
                }
                self.files.remove(i);
            },
            None => {
                proof {
                    assert(self@.remove(path@) =~= self@);
                }
            },
        }
    }

    /// Classify a change at `path` carrying time `modified`.
    pub fn compare(&self, path: &str, modified: u64) -> (r: ChangeType)
        requires
            self.wf(),
        ensures
            r == spec_compare(self@, path@, modified),
    {
        proof {
            lemma_assoc_map_contains(self.files@, path@);
        }
        match self.find(path) {
            Some(i) => {
                proof {
                    lemma_assoc_map_index(self.files@, i as int);
                }
                if self.files[i].1 < modified {
                    ChangeType::Modified
                } else {
                    ChangeType::Created
                }
            },
            None => ChangeType::Created,
        }
    }
}

/// Classify one filesystem event and bring the state up to date.
/// `observation` is what the filesystem said about `path`: `None` when
/// the file is gone, `Some(None)` when it exists but no modification
/// time could be read, `Some(Some(t))` when it was modified at `t`.
pub fn process_change_event(state: &mut State, path: &str, observation: Option<Option<u64>>) -> (r:
    ChangeType)
    requires
        old(state).wf(),
    ensures
        final(state).wf(),
        match observation {
            Some(Some(t)) => r == spec_compare(old(state)@, path@, t) && final(state)@ == old(
                state,
            )@.insert(path@, t),
            Some(None) => r == ChangeType::Created && final(state)@ == old(state)@,
            None => r == ChangeType::Removed && final(state)@ == old(state)@.remove(path@),
        },
{
    match observation {
        Some(Some(t)) => {
            let change_type = state.compare(path, t);
            state.update(path, t);
            change_type
        },
        Some(None) => ChangeType::Created,
        None => {
            state.remove(path);
            ChangeType::Removed
        },
    }
}

/// Whether `needle` occurs contiguously in `hay`.
pub open spec fn spec_contains_sub(hay: Seq<char>, needle: Seq<char>) -> bool {
    exists|k: int|
        0 <= k && k + needle.len() <= hay.len() && #[trigger] hay.subrange(k, k + needle.len())
            == needle
}

/// Whether `needle` occurs contiguously in `hay`.
pub fn contains_sub(hay: &str, needle: &str) -> (r: bool)
    ensures
        r == spec_contains_sub(hay@, needle@),
{
    let hn = hay.unicode_len();
    let nn = needle.unicode_len();
    if nn > hn {
        return false;
    }
    if nn == 0 {
        proof {
            assert(hay@.subrange(0, 0 + needle@.len() as int) =~= needle@);
        }
        return true;
    }
    let mut k: usize = 0;
    while k <= hn - nn
        invariant
            hn == hay@.len(),
            nn == needle@.len(),
            0 < nn <= hn,
            0 <= k <= hn - nn + 1,
            forall|t: int|
                0 <= t < k ==> #[trigger] hay@.subrange(t, t + needle@.len()) != needle@,
        decreases hn - k,
    {
        let window = hay.substring_char(k, k + nn);
        if str_eq(window, needle) {
            proof {
                assert(hay@.subrange(k as int, k + needle@.len()) == needle@);
            }
            return true;
        }
        k = k + 1;
    }
    false
}

/// Whether any exclusion fragment occurs in `path`.
pub fn is_excluded(path: &str, excludes: &Vec<String>) -> (r: bool)
    ensures
        r == exists|i: int|
            0 <= i < excludes@.len() && spec_contains_sub(path@, (#[trigger] excludes@[i])@),
{
    let mut i: usize = 0;
    while i < excludes.len()
        invariant
            0 <= i <= excludes@.len(),
            forall|j: int| 0 <= j < i ==> !spec_contains_sub(path@, (#[trigger] excludes@[j])@),
        decreases excludes@.len() - i,
    {
        if contains_sub(path, excludes[i].as_str()) {
            return true;
        }
        i = i + 1;
    }
    false
}

/// The first path of a list in which `needle` occurs.
pub open spec fn spec_first_containing(paths: Seq<Seq<char>>, needle: Seq<char>) -> Option<
    Seq<char>,
>
    decreases paths.len(),
{
    if paths.len() == 0 {
        None
    } else if spec_contains_sub(paths.first(), needle) {
        Some(paths.first())
    } else {
        spec_first_containing(paths.drop_first(), needle)
    }
}

/// The first path of a list in which `needle` occurs.
pub fn find_containing(paths: &Vec<String>, needle: &str) -> (r: Option<String>)
    ensures
        match r {
            Some(s) => spec_first_containing(string_views(paths@), needle@) == Some(s@),
            None => spec_first_containing(string_views(paths@), needle@) is None,
        },
{
    let mut i: usize = 0;
    proof {
        assert(string_views(paths@).skip(0) =~= string_views(paths@));
    }
    while i < paths.len()
        invariant
            0 <= i <= paths@.len(),
            spec_first_containing(string_views(paths@), needle@) == spec_first_containing(
                string_views(paths@).skip(i as int),
                needle@,
            ),
        decreases paths@.len() - i,
    {
        let ghost rem = string_views(paths@).skip(i as int);
        proof {
            assert(rem.first() == paths@[i as int]@);
            assert(rem.drop_first() =~= string_views(paths@).skip(i + 1));
        }
        if contains_sub(paths[i].as_str(), needle) {
            return Some(paths[i].clone());
        }
        i = i + 1;
    }
    proof {
        assert(string_views(paths@).skip(paths@.len() as int) =~= Seq::<Seq<char>>::empty());
    }
    None
}


/// An ASCII whitespace character, the kind a pid file holds around the
/// number.
pub open spec fn spec_is_space(c: char) -> bool {
    c == ' ' || c == '\t' || c == '\n' || c == '\r'
}

/// A decimal digit.
pub open spec fn spec_is_digit(c: char) -> bool {
    48 <= (c as u32) && (c as u32) <= 57
}

/// The string with leading whitespace dropped.
pub open spec fn spec_trim_front(s: Seq<char>) -> Seq<char>
    decreases s.len(),
{
    if s.len() > 0 && spec_is_space(s.first()) {
        spec_trim_front(s.drop_first())
    } else {
        s
    }
}

/// The string with trailing whitespace dropped.
pub open spec fn spec_trim_back(s: Seq<char>) -> Seq<char>
    decreases s.len(),
{
    if s.len() > 0 && spec_is_space(s.last()) {
        spec_trim_back(s.drop_last())
    } else {
        s
    }
}

/// The string with surrounding whitespace dropped.
pub open spec fn spec_trim(s: Seq<char>) -> Seq<char> {
    spec_trim_back(spec_trim_front(s))
}

/// Whether every character is a decimal digit.
pub open spec fn spec_all_digits(s: Seq<char>) -> bool {
    forall|i: int| 0 <= i < s.len() ==> spec_is_digit(#[trigger] s[i])
}

/// The number a digit string denotes.
pub open spec fn spec_digits_value(s: Seq<char>) -> int
    decreases s.len(),
{
    if s.len() == 0 {
        0
    } else {
        spec_digits_value(s.drop_last()) * 10 + (s.last() as u32 - 48)
    }
}

/// What a pid file's text denotes: the decimal number between the
/// surrounding whitespace, if there is exactly that and it fits.
pub open spec fn spec_parse_u32(s: Seq<char>) -> Option<u32> {
    let t = spec_trim(s);
    if t.len() > 0 && spec_all_digits(t) && spec_digits_value(t) <= u32::MAX {
        Some(spec_digits_value(t) as u32)
    } else {
        None
    }
}

/// Where the first `k` characters are whitespace and the next is not,
/// trimming the front drops exactly them.
proof fn lemma_trim_front_at(s: Seq<char>, k: int)
    requires
        0 <= k <= s.len(),
        forall|j: int| 0 <= j < k ==> spec_is_space(#[trigger] s[j]),
        k < s.len() ==> !spec_is_space(s[k]),
    ensures
        spec_trim_front(s) == s.skip(k),
    decreases k,
{
    if k == 0 {
        assert(s.skip(0) =~= s);
    } else {
        let d = s.drop_first();
        assert(spec_is_space(s[0]));
        assert(forall|j: int| 0 <= j < k - 1 ==> spec_is_space(#[trigger] d[j])) by {
            assert forall|j: int| 0 <= j < k - 1 implies spec_is_space(#[trigger] d[j]) by {
                assert(d[j] == s[j + 1]);
            }
        }
        if k - 1 < d.len() {
            assert(d[k - 1] == s[k]);
        }
        lemma_trim_front_at(d, k - 1);
        assert(d.skip(k - 1) =~= s.skip(k));
    }
}

/// Where the characters from `e` on are whitespace and the one before
/// is not, trimming the back keeps exactly the first `e`.
proof fn lemma_trim_back_at(s: Seq<char>, e: int)
    requires
        0 <= e <= s.len(),
        forall|j: int| e <= j < s.len() ==> spec_is_space(#[trigger] s[j]),
        e > 0 ==> !spec_is_space(s[e - 1]),
    ensures
        spec_trim_back(s) == s.take(e),
    decreases s.len(),
{
    if e == s.len() {
        assert(s.take(e) =~= s);
    } else {
        let d = s.drop_last();
        assert(spec_is_space(s[s.len() - 1]));
        assert(forall|j: int| e <= j < d.len() ==> spec_is_space(#[trigger] d[j])) by {
            assert forall|j: int| e <= j < d.len() implies spec_is_space(#[trigger] d[j]) by {
                assert(d[j] == s[j]);
            }
        }
        if e > 0 {
            assert(d[e - 1] == s[e - 1]);
        }
        lemma_trim_back_at(d, e);
        assert(d.take(e) =~= s.take(e));
    }
}

/// A digit string denotes a nonnegative number.
proof fn lemma_digits_value_nonneg(s: Seq<char>)
    requires
        spec_all_digits(s),
    ensures
        spec_digits_value(s) >= 0,
    decreases s.len(),
{
    if s.len() > 0 {
        let d = s.drop_last();
        assert(forall|j: int| 0 <= j < d.len() ==> spec_is_digit(#[trigger] d[j])) by {
            assert forall|j: int| 0 <= j < d.len() implies spec_is_digit(#[trigger] d[j]) by {
                assert(d[j] == s[j]);
            }
        }
        lemma_digits_value_nonneg(d);
        assert(spec_is_digit(s[s.len() - 1]));
    }
}

/// Reading more digits never shrinks the number.
proof fn lemma_digits_value_mono(s: Seq<char>, i: int)
    requires
        spec_all_digits(s),
        0 <= i <= s.len(),
    ensures
        spec_digits_value(s.take(i)) <= spec_digits_value(s),
    decreases s.len() - i,
{
    if i < s.len() {
        lemma_digits_value_mono(s, i + 1);
        let t = s.take(i);
        assert(forall|j: int| 0 <= j < t.len() ==> spec_is_digit(#[trigger] t[j])) by {
            assert forall|j: int| 0 <= j < t.len() implies spec_is_digit(#[trigger] t[j]) by {
                assert(t[j] == s[j]);
            }
        }
        lemma_digits_value_nonneg(t);
        assert(s.take(i + 1).drop_last() =~= t);
        assert(s.take(i + 1).last() == s[i]);
        assert(spec_is_digit(s[i]));
        assert(spec_digits_value(s.take(i + 1)) == spec_digits_value(t) * 10 + (s[i] as u32 - 48));
    } else {
        assert(s.take(i) =~= s);
    }
}

/// Whether a character is ASCII whitespace.
fn is_space(c: char) -> (r: bool)
    ensures
        r == spec_is_space(c),
{
    c == ' ' || c == '\t' || c == '\n' || c == '\r'
}

/// The process id a pid file's text denotes: its decimal number between
/// surrounding whitespace; anything else (empty, a stray character, a
/// number too large) is nothing.
pub fn parse_pid(s: &str) -> (r: Option<u32>)
    ensures
        r == spec_parse_u32(s@),
{
    let n = s.unicode_len();
    let mut start: usize = 0;
    while start < n && is_space(s.get_char(start))
        invariant
            n == s@.len(),
            0 <= start <= n,
            forall|j: int| 0 <= j < start ==> spec_is_space(#[trigger] s@[j]),
        decreases n - start,
    {
        start = start + 1;
    }
    let mut end: usize = n;
    while end > start && is_space(s.get_char(end - 1))
        invariant
            n == s@.len(),
            0 <= start <= end <= n,
            forall|j: int| 0 <= j < start ==> spec_is_space(#[trigger] s@[j]),
            start < n ==> !spec_is_space(s@[start as int]),
            forall|j: int| end <= j < n ==> spec_is_space(#[trigger] s@[j]),
        decreases end,
    {
        end = end - 1;
    }
    let ghost t = spec_trim(s@);
    proof {
        lemma_trim_front_at(s@, start as int);
        let f = s@.skip(start as int);
        assert(forall|j: int| end - start <= j < f.len() ==> spec_is_space(#[trigger] f[j])) by {
            assert forall|j: int| end - start <= j < f.len() implies spec_is_space(
                #[trigger] f[j],
            ) by {
                assert(f[j] == s@[j + start]);
            }
        }
        if end > start {
            assert(f[end - start - 1] == s@[end - 1]);
        }
        lemma_trim_back_at(f, end - start);
        assert(t =~= s@.subrange(start as int, end as int));
    }
    if end == start {
        return None;
    }
    let mut acc: u32 = 0;
    let mut i: usize = start;
    while i < end
        invariant
            n == s@.len(),
            0 <= start <= i <= end <= n,
            t == spec_trim(s@),
            t == s@.subrange(start as int, end as int),
            forall|j: int| start <= j < i ==> spec_is_digit(#[trigger] s@[j]),
            acc as int == spec_digits_value(t.take(i - start)),
        decreases end - i,
    {
        let c = s.get_char(i);
        let cu = c as u32;
        proof {
            assert(t[i - start] == s@[i as int]);
        }
        if cu < 48 || cu > 57 {
            proof {
                assert(!spec_is_digit(t[i - start]));
            }
            return None;
        }
        let d: u32 = cu - 48;
        proof {
            assert(t.take(i - start + 1).drop_last() =~= t.take(i - start));
            assert(t.take(i - start + 1).last() == s@[i as int]);
            lemma_digits_value_nonneg_take(t, i - start);
        }
        if acc > 429496729 || (acc == 429496729 && d > 5) {
            proof {
                assert(spec_digits_value(t.take(i - start + 1)) > u32::MAX as int);
                if spec_all_digits(t) {
                    lemma_digits_value_mono(t, i - start + 1);
                }
            }
            return None;
        }
        acc = acc * 10 + d;
        i = i + 1;
    }
    proof {
        assert(t.take(end - start) =~= t);
        assert(forall|j: int| 0 <= j < t.len() ==> spec_is_digit(#[trigger] t[j])) by {
            assert forall|j: int| 0 <= j < t.len() implies spec_is_digit(#[trigger] t[j]) by {
                assert(t[j] == s@[j + start]);
            }
        }
    }
    Some(acc)
}

/// The prefix of a digit run denotes a nonnegative number.
proof fn lemma_digits_value_nonneg_take(s: Seq<char>, i: int)
    requires
        0 <= i <= s.len(),
        forall|j: int| 0 <= j < i ==> spec_is_digit(#[trigger] s[j]),
    ensures
        spec_digits_value(s.take(i)) >= 0,
{
    let t = s.take(i);
    assert(forall|j: int| 0 <= j < t.len() ==> spec_is_digit(#[trigger] t[j])) by {
        assert forall|j: int| 0 <= j < t.len() implies spec_is_digit(#[trigger] t[j]) by {
            assert(t[j] == s[j]);
        }
    }
    lemma_digits_value_nonneg(t);
}


} // verus!
