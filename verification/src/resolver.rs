//! Command resolution: splitting the PATH variable, building candidate
//! executable paths, picking the first directory that passes the
//! filesystem checks, and the memoizing name-to-path cache.
//!
//! The filesystem checks themselves (the candidate exists, is a regular
//! file, and has an executable bit) happen outside the library; the library
//! states which candidate wins given the outcome of those checks.

use vstd::prelude::*;
use vstd::string::StringExecFns;

use crate::text::chars_to_string;
use crate::text::str_eq;
use crate::text::to_chars;

verus! {

/// The longest prefix holding no separator.
pub open spec fn piece_before(s: Seq<char>, sep: char) -> Seq<char>
    decreases s.len(),
{
    if s.len() > 0 && s[0] != sep {
        seq![s[0]] + piece_before(s.drop_first(), sep)
    } else {
        Seq::empty()
    }
}

/// Splitting on a separator character: one piece per stretch between
/// separators, empty pieces kept, so a sequence with `n` separators has
/// `n + 1` pieces.
pub open spec fn split_on(s: Seq<char>, sep: char) -> Seq<Seq<char>>
    decreases s.len(),
    via split_on_decreases
{
    let p = piece_before(s, sep);
    if p.len() == s.len() {
        seq![s]
    } else {
        seq![p] + split_on(s.skip(p.len() + 1 as int), sep)
    }
}

#[via_fn]
proof fn split_on_decreases(s: Seq<char>, sep: char) {
    lemma_piece_before_len(s, sep);
}

proof fn lemma_piece_before_len(s: Seq<char>, sep: char)
    ensures
        piece_before(s, sep).len() <= s.len(),
    decreases s.len(),
{
    if s.len() > 0 && s[0] != sep {
        lemma_piece_before_len(s.drop_first(), sep);
    }
}

proof fn lemma_piece_before_concat(t: Seq<char>, s2: Seq<char>, sep: char)
    requires
        forall|j: int| 0 <= j < t.len() ==> t[j] != sep,
        s2.len() == 0 || s2[0] == sep,
    ensures
        piece_before(t + s2, sep) == t,
    decreases t.len(),
{
    if t.len() == 0 {
        assert(t + s2 =~= s2);
        assert(piece_before(s2, sep) =~= t);
    } else {
        assert((t + s2)[0] == t[0]);
        assert((t + s2).drop_first() =~= t.drop_first() + s2);
        lemma_piece_before_concat(t.drop_first(), s2, sep);
        assert(seq![t[0]] + t.drop_first() =~= t);
    }
}

/// Splits a string on a separator character; empty pieces are kept.
pub fn split_char(s: &str, sep: char) -> (r: Vec<String>)
    ensures
        r.deep_view() == split_on(s@, sep),
{
    let chars = to_chars(s);
    let n = chars.len();
    let mut pieces: Vec<String> = Vec::new();
    let mut cur: Vec<char> = Vec::new();
    let mut i: usize = 0;
    proof {
        assert(Seq::<char>::empty() + s@.skip(0) =~= s@);
        assert(Seq::<Seq<char>>::empty() + split_on(s@, sep) =~= split_on(s@, sep));
    }
    while i < n
        invariant
            i <= n,
            n == chars@.len(),
            chars@ == s@,
            forall|j: int| 0 <= j < cur@.len() ==> cur@[j] != sep,
            split_on(s@, sep) == pieces.deep_view() + split_on(cur@ + s@.skip(i as int), sep),
        decreases n - i,
    {
        let c = chars[i];
        let ghost tail = s@.skip(i as int);
        proof {
            assert(tail[0] == c);
        }
        if c == sep {
            proof {
                lemma_piece_before_concat(cur@, tail, sep);
                lemma_piece_before_len(cur@ + tail, sep);
                assert(piece_before(cur@ + tail, sep) == cur@);
                assert((cur@ + tail).len() == cur@.len() + tail.len());
                assert(tail.len() >= 1);
                assert((cur@ + tail).skip(cur@.len() + 1 as int) =~= s@.skip(i + 1 as int));
                assert(split_on(cur@ + tail, sep) == seq![cur@] + split_on(
                    s@.skip(i + 1 as int),
                    sep,
                ));
            }
            let ghost before = pieces.deep_view();
            let ghost done = cur@;
            let t = chars_to_string(&cur);
            pieces.push(t);
            cur = Vec::new();
            proof {
                assert(pieces.deep_view() =~= before.push(done));
                assert(before + (seq![done] + split_on(s@.skip(i + 1 as int), sep))
                    =~= pieces.deep_view() + split_on(s@.skip(i + 1 as int), sep));
                assert(cur@ + s@.skip(i + 1 as int) =~= s@.skip(i + 1 as int));
            }
        } else {
            let ghost before = cur@;
            cur.push(c);
            proof {
                assert(cur@ + s@.skip(i + 1 as int) =~= before + tail);
            }
        }
        i = i + 1;
    }
    proof {
        assert(s@.skip(n as int) =~= Seq::<char>::empty());
        assert(cur@ + s@.skip(n as int) =~= cur@);
        lemma_piece_before_concat(cur@, Seq::empty(), sep);
        assert(cur@ + Seq::<char>::empty() =~= cur@);
        assert(piece_before(cur@, sep) == cur@);
        assert(split_on(cur@, sep) == seq![cur@]);
    }
    let ghost before = pieces.deep_view();
    let ghost done = cur@;
    let t = chars_to_string(&cur);
    pieces.push(t);
    proof {
        assert(pieces.deep_view() =~= before.push(done));
        assert(before + seq![done] =~= pieces.deep_view());
    }
    pieces
}

/// The candidate executable path for one PATH directory: the directory,
/// a slash, and the command name.
pub open spec fn candidate_of(dir: Seq<char>, name: Seq<char>) -> Seq<char> {
    dir + "/"@ + name
}

/// Builds the candidate executable paths for a command: one per PATH
/// directory, in PATH order.
pub fn candidate_paths(path_var: &str, name: &str) -> (r: Vec<String>)
    ensures
        r.deep_view().len() == split_on(path_var@, ':').len(),
        forall|i: int|
            0 <= i < r.deep_view().len() ==> r.deep_view()[i] == candidate_of(
                split_on(path_var@, ':')[i],
                name@,
            ),
{
    let dirs = split_char(path_var, ':');
    let mut r: Vec<String> = Vec::new();
    let mut i: usize = 0;
    while i < dirs.len()
        invariant
            i <= dirs@.len(),
            dirs.deep_view() == split_on(path_var@, ':'),
            r.deep_view().len() == i,
            forall|j: int|
                0 <= j < i ==> r.deep_view()[j] == candidate_of(dirs.deep_view()[j], name@),
        decreases dirs@.len() - i,
    {
        let ghost before = r.deep_view();
        let dir = dirs[i].clone();
        let candidate = dir.concat("/").concat(name);
        proof {
            assert(candidate@ =~= candidate_of(dirs.deep_view()[i as int], name@));
        }
        r.push(candidate);
        proof {
            assert(r.deep_view() =~= before.push(candidate@));
        }
        i = i + 1;
    }
    r
}

/// Picks the first candidate that passed its check: the smallest index
/// whose flag is true, or nothing when none is.
pub fn first_match(ok: &Vec<bool>) -> (r: Option<usize>)
    ensures
        match r {
            Some(i) => i < ok@.len() && ok@[i as int] && forall|j: int| 0 <= j < i ==> !ok@[j],
            None => forall|j: int| 0 <= j < ok@.len() ==> !ok@[j],
        },
{
    let mut i: usize = 0;
    while i < ok.len()
        invariant
            i <= ok@.len(),
            forall|j: int| 0 <= j < i ==> !ok@[j],
        decreases ok@.len() - i,
    {
        if ok[i] {
            return Some(i);
        }
        i = i + 1;
    }
    None
}

/// The mapping an association list denotes, later entries shadowing
/// earlier ones.
pub open spec fn assoc_map(names: Seq<Seq<char>>, paths: Seq<Seq<char>>) -> Map<
    Seq<char>,
    Seq<char>,
>
    decreases names.len(),
{
    if names.len() == 0 || paths.len() == 0 {
        Map::empty()
    } else {
        assoc_map(names.drop_last(), paths.drop_last()).insert(names.last(), paths.last())
    }
}

/// The memoizing resolution cache: command names and the absolute paths
/// they resolved to. Only successful resolutions are recorded, and an
/// entry is never evicted or revalidated.
pub struct ResolutionCache {
    names: Vec<String>,
    paths: Vec<String>,
}

impl View for ResolutionCache {
    type V = Map<Seq<char>, Seq<char>>;

    closed spec fn view(&self) -> Map<Seq<char>, Seq<char>> {
        assoc_map(self.names.deep_view(), self.paths.deep_view())
    }
}

proof fn lemma_assoc_lookup(names: Seq<Seq<char>>, paths: Seq<Seq<char>>, k: Seq<char>)
    requires
        names.len() == paths.len(),
        forall|i: int, j: int| 0 <= i < j < names.len() ==> names[i] != names[j],
    ensures
        assoc_map(names, paths).contains_key(k) <==> exists|i: int|
            0 <= i < names.len() && names[i] == k,
        forall|i: int|
            0 <= i < names.len() && names[i] == k ==> assoc_map(names, paths)[k] == paths[i],
    decreases names.len(),
{
    if names.len() > 0 {
        let np = names.drop_last();
        let pp = paths.drop_last();
        assert(forall|i: int| 0 <= i < np.len() ==> np[i] == names[i]);
        assert(forall|i: int| 0 <= i < pp.len() ==> pp[i] == paths[i]);
        lemma_assoc_lookup(np, pp, k);
        if names.last() == k {
            assert(names[names.len() - 1] == k);
        } else {
            assert(assoc_map(names, paths)[k] == assoc_map(np, pp)[k]) by {
                assert(assoc_map(names, paths) == assoc_map(np, pp).insert(names.last(), paths.last()));
            }
            assert((exists|i: int| 0 <= i < names.len() && names[i] == k) <==> (exists|i: int|
                0 <= i < np.len() && np[i] == k)) by {
                if exists|i: int| 0 <= i < names.len() && names[i] == k {
                    let i = choose|i: int| 0 <= i < names.len() && names[i] == k;
                    assert(i < names.len() - 1);
                    assert(np[i] == k);
                }
            }
        }
    }
}

impl ResolutionCache {
    /// Whether the cache is well formed: one path per name, names unique.
    pub closed spec fn wf(&self) -> bool {
        &&& self.names@.len() == self.paths@.len()
        &&& forall|i: int, j: int|
            0 <= i < j < self.names.deep_view().len() ==> self.names.deep_view()[i]
                != self.names.deep_view()[j]
    }

    /// An empty cache.
    pub fn new() -> (c: ResolutionCache)
        ensures
            c.wf(),
            c@ == Map::<Seq<char>, Seq<char>>::empty(),
    {
        ResolutionCache { names: Vec::new(), paths: Vec::new() }
    }

    /// Returns the recorded path for a name, or nothing on a miss. The
    /// filesystem is never consulted.
    pub fn lookup(&self, name: &str) -> (r: Option<&String>)
        requires
            self.wf(),
        ensures
            match r {
                Some(p) => self@.contains_key(name@) && p@ == self@[name@],
                None => !self@.contains_key(name@),
            },
    {
        let mut i: usize = 0;
        while i < self.names.len()
            invariant
                self.wf(),
                i <= self.names@.len(),
                forall|j: int| 0 <= j < i ==> self.names.deep_view()[j] != name@,
            decreases self.names@.len() - i,
        {
            if str_eq(name, self.names[i].as_str()) {
                proof {
                    lemma_assoc_lookup(self.names.deep_view(), self.paths.deep_view(), name@);
                    assert(self.names.deep_view()[i as int] == name@);
                }
                return Some(&self.paths[i]);
            }
            i = i + 1;
        }
        proof {
            lemma_assoc_lookup(self.names.deep_view(), self.paths.deep_view(), name@);
        }
        None
    }

    /// Records a fresh resolution. Only names not yet present are recorded:
    /// the shell caches only hits, and checks the cache before resolving.
    pub fn record(&mut self, name: &str, path: String)
        requires
            old(self).wf(),
            !old(self)@.contains_key(name@),
        ensures
            final(self).wf(),
            final(self)@ == old(self)@.insert(name@, path@),
    {
        proof {
            lemma_assoc_lookup(self.names.deep_view(), self.paths.deep_view(), name@);
        }
        let ghost old_names = self.names.deep_view();
        let ghost old_paths = self.paths.deep_view();
        let owned = name.to_owned();
        self.names.push(owned);
        self.paths.push(path);
        proof {
            assert(self.names.deep_view() =~= old_names.push(name@));
            assert(self.paths.deep_view() =~= old_paths.push(path@));
            assert(self.names.deep_view().drop_last() =~= old_names);
            assert(self.paths.deep_view().drop_last() =~= old_paths);
            assert(forall|i: int|
                0 <= i < old_names.len() ==> self.names.deep_view()[i] == old_names[i]);
        }
    }
}

/// Law: a recorded resolution is stable. Once a name maps to a path, a
/// later lookup of that name yields that very path, whatever else was
/// recorded for other names and whatever the filesystem does meanwhile.
pub proof fn lemma_cache_stable(
    m: Map<Seq<char>, Seq<char>>,
    name: Seq<char>,
    path: Seq<char>,
    other: Seq<char>,
    other_path: Seq<char>,
)
    requires
        other != name,
    ensures
        m.insert(name, path).contains_key(name),
        m.insert(name, path)[name] == path,
        m.insert(name, path).insert(other, other_path)[name] == path,
{
}

} // verus!
