//! Path normalization.
//!
//! Filesystem-style paths are standardized (one leading and one trailing
//! separator stripped), split on the remaining separators, and rejoined
//! with dots under a fixed synthetic top-level key, so equivalent paths
//! written with or without surrounding slashes name the same index key.

use vstd::prelude::*;

use vstd::string::{StrSliceExecFns, StringExecFns};

verus! {

/// The fixed synthetic top-level key every normalized path sits under.
pub open spec fn root_key() -> Seq<char> {
    seq!['r', 'o', 'o', 't']
}

/// A path with one leading and one trailing separator stripped.
pub open spec fn spec_standardize(path: Seq<char>) -> Seq<char> {
    let a = if path.len() > 0 && path.first() == '/' {
        path.drop_first()
    } else {
        path
    };
    if a.len() > 0 && a.last() == '/' {
        a.drop_last()
    } else {
        a
    }
}

/// Split on a separator; an empty string is one empty segment.
pub open spec fn spec_split(s: Seq<char>, sep: char) -> Seq<Seq<char>>
    decreases s.len(),
{
    if s.len() == 0 {
        seq![Seq::<char>::empty()]
    } else if s.first() == sep {
        seq![Seq::<char>::empty()] + spec_split(s.drop_first(), sep)
    } else {
        let rest = spec_split(s.drop_first(), sep);
        seq![seq![s.first()] + rest.first()] + rest.drop_first()
    }
}

/// A split has at least one segment.
pub proof fn lemma_split_nonempty(s: Seq<char>, sep: char)
    ensures
        spec_split(s, sep).len() >= 1,
    decreases s.len(),
{
    if s.len() > 0 {
        lemma_split_nonempty(s.drop_first(), sep);
    }
}

/// Where the first `k` characters hold no separator and the next one (if
/// any) is one, the first segment is exactly those `k` characters.
pub proof fn lemma_split_at_sep(s: Seq<char>, sep: char, k: int)
    requires
        0 <= k <= s.len(),
        forall|j: int| 0 <= j < k ==> s[j] != sep,
        k < s.len() ==> s[k] == sep,
    ensures
        k == s.len() ==> spec_split(s, sep) == seq![s],
        k < s.len() ==> spec_split(s, sep) == seq![s.take(k)] + spec_split(s.skip(k + 1), sep),
    decreases k,
{
    lemma_split_nonempty(s, sep);
    if k == 0 {
        if s.len() == 0 {
            assert(s =~= Seq::<char>::empty());
        } else {
            assert(s[0] == sep);
            assert(s.take(0) =~= Seq::<char>::empty());
            assert(s.skip(1) =~= s.drop_first());
        }
    } else {
        let d = s.drop_first();
        lemma_split_nonempty(d, sep);
        assert(s.first() != sep);
        assert(forall|j: int| 0 <= j < k - 1 ==> #[trigger] d[j] != sep) by {
            assert forall|j: int| 0 <= j < k - 1 implies #[trigger] d[j] != sep by {
                assert(d[j] == s[j + 1]);
            }
        }
        if k - 1 < d.len() {
            assert(d[k - 1] == s[k]);
        }
        lemma_split_at_sep(d, sep, k - 1);
        let rest = spec_split(d, sep);
        if k == s.len() {
            assert(rest == seq![d]);
            assert(rest.first() == d);
            assert(seq![s.first()] + d =~= s);
            assert(rest.drop_first() =~= Seq::<Seq<char>>::empty());
            assert(spec_split(s, sep) =~= seq![seq![s.first()] + rest.first()]);
            assert(spec_split(s, sep) == seq![s]);
        } else {
            assert(rest == seq![d.take(k - 1)] + spec_split(d.skip(k), sep));
            assert(rest.first() == d.take(k - 1));
            assert(seq![s.first()] + d.take(k - 1) =~= s.take(k));
            assert(rest.drop_first() =~= spec_split(d.skip(k), sep));
            assert(d.skip(k) =~= s.skip(k + 1));
            assert(spec_split(s, sep) =~= seq![s.take(k)] + spec_split(s.skip(k + 1), sep));
        }
    }
}

/// Join segments with a separator.
pub open spec fn spec_join(parts: Seq<Seq<char>>, sep: char) -> Seq<char>
    decreases parts.len(),
{
    if parts.len() == 0 {
        Seq::empty()
    } else if parts.len() == 1 {
        parts.first()
    } else {
        parts.first() + seq![sep] + spec_join(parts.drop_first(), sep)
    }
}

/// Joining one more segment appends a separator and the segment.
pub proof fn lemma_join_push(parts: Seq<Seq<char>>, sep: char, p: Seq<char>)
    requires
        parts.len() >= 1,
    ensures
        spec_join(parts.push(p), sep) == spec_join(parts, sep) + seq![sep] + p,
    decreases parts.len(),
{
    let w = parts.push(p);
    if parts.len() == 1 {
        assert(w.drop_first() =~= seq![p]);
        assert(w.first() == parts.first());
        assert(spec_join(w.drop_first(), sep) == p);
    } else {
        lemma_join_push(parts.drop_first(), sep, p);
        assert(w.drop_first() =~= parts.drop_first().push(p));
        assert(w.first() == parts.first());
        assert(parts.first() + seq![sep] + (spec_join(parts.drop_first(), sep) + seq![sep] + p)
            =~= (parts.first() + seq![sep] + spec_join(parts.drop_first(), sep)) + seq![sep] + p);
    }
}

/// The normalized segment list of a path: the synthetic top-level key,
/// then the separator-split standardized path, with a leading empty
/// segment dropped.
pub open spec fn spec_segments(path: Seq<char>) -> Seq<Seq<char>> {
    let parts = spec_split(spec_standardize(path), '/');
    let trimmed = if parts.len() > 0 && parts.first().len() == 0 {
        parts.drop_first()
    } else {
        parts
    };
    seq![root_key()] + trimmed
}

/// The index key a path normalizes to.
pub open spec fn spec_dht_path(path: Seq<char>) -> Seq<char> {
    spec_join(spec_segments(path), '.')
}

/// Normalization ignores one leading and one trailing separator: a path
/// written with or without them names the same key.
pub proof fn lemma_normalize_slash_invariant(s: Seq<char>)
    requires
        s.len() == 0 || (s.first() != '/' && s.last() != '/'),
    ensures
        spec_dht_path(seq!['/'] + s) == spec_dht_path(s),
        spec_dht_path(s + seq!['/']) == spec_dht_path(s),
        spec_dht_path(seq!['/'] + s + seq!['/']) == spec_dht_path(s),
{
    assert(spec_standardize(s) =~= s);
    assert((seq!['/'] + s).first() == '/');
    assert((seq!['/'] + s).drop_first() =~= s);
    if s.len() == 0 {
        assert(spec_standardize(seq!['/'] + s) =~= s);
        assert((s + seq!['/']).first() == '/');
        assert((s + seq!['/']).drop_first() =~= Seq::<char>::empty());
        assert(spec_standardize(s + seq!['/']) =~= s);
        let both = seq!['/'] + s + seq!['/'];
        assert(both.first() == '/');
        assert(both.drop_first() =~= seq!['/']);
        assert(both.drop_first().last() == '/');
        assert(both.drop_first().drop_last() =~= s);
        assert(spec_standardize(both) =~= s);
    } else {
        assert(s.last() != '/');
        assert(spec_standardize(seq!['/'] + s) =~= s);
        assert((s + seq!['/']).first() == s.first());
        assert((s + seq!['/']).last() == '/');
        assert((s + seq!['/']).drop_last() =~= s);
        assert(spec_standardize(s + seq!['/']) =~= s);
        let both = seq!['/'] + s + seq!['/'];
        assert(both.first() == '/');
        assert(both.drop_first() =~= s + seq!['/']);
        assert((s + seq!['/']).last() == '/');
        assert(spec_standardize(both) =~= s);
    }
}

/// The byte strings a list of segments holds, in order.
pub open spec fn string_views(s: Seq<String>) -> Seq<Seq<char>> {
    s.map_values(|x: String| x@)
}

/// Strip one leading and one trailing separator.
pub fn standardize_fs_path(path: &str) -> (r: String)
    ensures
        r@ == spec_standardize(path@),
{
    let n = path.unicode_len();
    let start: usize = if n > 0 && path.get_char(0) == '/' {
        1
    } else {
        0
    };
    let end: usize = if n > start && path.get_char(n - 1) == '/' {
        n - 1
    } else {
        n
    };
    let r = String::from_str(path.substring_char(start, end));
    proof {
        assert(r@ =~= spec_standardize(path@));
    }
    r
}

/// Split a path into its separator-delimited segments.
fn split_path(s: &str) -> (parts: Vec<String>)
    ensures
        string_views(parts@) == spec_split(s@, '/'),
{
    let n = s.unicode_len();
    let mut parts: Vec<String> = Vec::new();
    let mut seg_start: usize = 0;
    let mut j: usize = 0;
    proof {
        assert(s@.skip(0) =~= s@);
        assert(string_views(parts@) =~= Seq::<Seq<char>>::empty());
        assert(string_views(parts@) + spec_split(s@.skip(0), '/') =~= spec_split(s@, '/'));
    }
    while j < n
        invariant
            n == s@.len(),
            0 <= seg_start <= j <= n,
            forall|t: int| seg_start <= t < j ==> s@[t] != '/',
            spec_split(s@, '/') == string_views(parts@) + spec_split(s@.skip(seg_start as int), '/'),
        decreases n - j,
    {
        if s.get_char(j) == '/' {
            let seg = String::from_str(s.substring_char(seg_start, j));
            let ghost old_vs = string_views(parts@);
            let ghost rem = s@.skip(seg_start as int);
            proof {
                assert(forall|t: int| 0 <= t < j - seg_start ==> #[trigger] rem[t] != '/') by {
                    assert forall|t: int| 0 <= t < j - seg_start implies #[trigger] rem[t] != '/' by {
                        assert(rem[t] == s@[t + seg_start]);
                    }
                }
                assert(rem[j - seg_start] == s@[j as int]);
                lemma_split_at_sep(rem, '/', j - seg_start);
                assert(rem.take(j - seg_start) =~= seg@);
                assert(rem.skip(j - seg_start + 1) =~= s@.skip(j + 1));
                assert(string_views(parts@.push(seg)) =~= old_vs.push(seg@));
                assert(old_vs + (seq![seg@] + spec_split(s@.skip(j + 1), '/')) =~= old_vs.push(
                    seg@,
                ) + spec_split(s@.skip(j + 1), '/'));
            }
            parts.push(seg);
            seg_start = j + 1;
        }
        j = j + 1;
    }
    let seg = String::from_str(s.substring_char(seg_start, n));
    let ghost old_vs = string_views(parts@);
    let ghost rem = s@.skip(seg_start as int);
    proof {
        assert(forall|t: int| 0 <= t < rem.len() ==> #[trigger] rem[t] != '/') by {
            assert forall|t: int| 0 <= t < rem.len() implies #[trigger] rem[t] != '/' by {
                assert(rem[t] == s@[t + seg_start]);
            }
        }
        lemma_split_at_sep(rem, '/', rem.len() as int);
        assert(rem =~= seg@);
        assert(string_views(parts@.push(seg)) =~= old_vs.push(seg@));
        assert(old_vs + seq![rem] =~= old_vs.push(seg@));
    }
    parts.push(seg);
    parts
}

/// The normalized segment list of a path: the synthetic top-level key,
/// then the standardized path's separator-delimited segments.
pub fn path_segments(path: &str) -> (segs: Vec<String>)
    ensures
        string_views(segs@) == spec_segments(path@),
        segs@.len() >= 1,
{
    let std = standardize_fs_path(path);
    let parts = split_path(std.as_str());
    proof {
        lemma_split_nonempty(std@, '/');
    }
    let start_idx: usize = if parts.len() > 0 && parts[0].as_str().unicode_len() == 0 {
        1
    } else {
        0
    };
    let mut segs: Vec<String> = Vec::new();
    segs.push(String::from_str("root"));
    proof {
        reveal_strlit("root");
        assert("root"@ =~= root_key());
        assert(string_views(segs@) =~= seq![root_key()]);
        assert(string_views(parts@).subrange(start_idx as int, start_idx as int) =~= Seq::<
            Seq<char>,
        >::empty());
        assert(string_views(segs@) =~= seq![root_key()] + string_views(parts@).subrange(
            start_idx as int,
            start_idx as int,
        ));
    }
    let mut i: usize = start_idx;
    while i < parts.len()
        invariant
            0 <= start_idx <= i <= parts@.len(),
            string_views(segs@) == seq![root_key()] + string_views(parts@).subrange(
                start_idx as int,
                i as int,
            ),
        decreases parts@.len() - i,
    {
        let ghost old_vs = string_views(segs@);
        let s = String::from_str(parts[i].as_str());
        proof {
            assert(string_views(segs@.push(s)) =~= old_vs.push(parts@[i as int]@));
            assert((seq![root_key()] + string_views(parts@).subrange(start_idx as int, i as int))
                .push(parts@[i as int]@) =~= seq![root_key()] + string_views(parts@).subrange(
                start_idx as int,
                i + 1,
            ));
        }
        segs.push(s);
        i = i + 1;
    }
    proof {
        assert(string_views(parts@).subrange(start_idx as int, parts@.len() as int)
            =~= string_views(parts@).skip(start_idx as int));
        assert(string_views(parts@).skip(1) =~= string_views(parts@).drop_first());
        assert(string_views(parts@).skip(0) =~= string_views(parts@));
        assert(spec_segments(path@) =~= seq![root_key()] + string_views(parts@).skip(
            start_idx as int,
        ));
    }
    segs
}

/// Join the first `upto` segments with dots.
pub fn join_prefix(segs: &Vec<String>, upto: usize) -> (r: String)
    requires
        1 <= upto <= segs@.len(),
    ensures
        r@ == spec_join(string_views(segs@).take(upto as int), '.'),
{
    let mut out = String::from_str(segs[0].as_str());
    proof {
        assert(string_views(segs@).take(1) =~= seq![segs@[0]@]);
        assert(spec_join(string_views(segs@).take(1), '.') == segs@[0]@);
    }
    let mut i: usize = 1;
    while i < upto
        invariant
            1 <= i <= upto <= segs@.len(),
            out@ == spec_join(string_views(segs@).take(i as int), '.'),
        decreases upto - i,
    {
        let ghost done = string_views(segs@).take(i as int);
        proof {
            lemma_join_push(done, '.', segs@[i as int]@);
            assert(done.push(segs@[i as int]@) =~= string_views(segs@).take(i + 1));
            reveal_strlit(".");
            assert("."@ =~= seq!['.']);
        }
        out.append(".");
        out.append(segs[i].as_str());
        proof {
            assert(out@ == spec_join(done, '.') + seq!['.'] + segs@[i as int]@);
        }
        i = i + 1;
    }
    out
}

/// Convert a filesystem-style path to its dot-separated index key under
/// the synthetic top-level key — the shape in which the replicated
/// store's hierarchical path index addresses a directory level.
pub fn fs_path_to_dht_path(path: &str) -> (r: String)
    ensures
        r@ == spec_dht_path(path@),
{
    let segs = path_segments(path);
    let n = segs.len();
    let r = join_prefix(&segs, n);
    proof {
        assert(string_views(segs@).take(segs@.len() as int) =~= string_views(segs@));
    }
    r
}

/// Character-for-character string equality.
pub fn str_eq(a: &str, b: &str) -> (r: bool)
    ensures
        r == (a@ == b@),
{
    let na = a.unicode_len();
    let nb = b.unicode_len();
    if na != nb {
        return false;
    }
    let mut i: usize = 0;
    while i < na
        invariant
            na == a@.len(),
            na == b@.len(),
            0 <= i <= na,
            forall|j: int| 0 <= j < i ==> a@[j] == b@[j],
        decreases na - i,
    {
        if a.get_char(i) != b.get_char(i) {
            return false;
        }
        i = i + 1;
    }
    proof {
        assert(a@ =~= b@);
    }
    true
}

} // verus!
