//! A model of the filesystem state the engine reconciles against.
//!
//! The model is a flat finite map from path strings to entries. Paths are
//! treated as canonical identifiers: resolving an existing path yields the
//! path itself, and a path that is not a key does not exist. A regular
//! file's bytes are abstracted to a content token (`0` denotes empty); the
//! engine never reads contents, so the abstraction loses nothing it decides
//! on. An entry under a directory is any key that extends the directory's
//! path with a `/`-separated suffix.

use crate::paths::str_eq;
use vstd::map::*;
use vstd::prelude::*;
use vstd::string::*;

verus! {

/// A filesystem entry: a directory, a regular file (abstracted to a content
/// token, `0` meaning empty), or a symbolic link holding its target path.
#[derive(Debug, PartialEq)]
pub enum Entry {
    Dir,
    File { content: u64 },
    Link { target: String },
}

/// The mathematical value of an [`Entry`]: the link target becomes a
/// sequence of characters.
pub enum EntryV {
    Dir,
    File { content: u64 },
    Link { target: Seq<char> },
}

impl View for Entry {
    type V = EntryV;

    open spec fn view(&self) -> EntryV {
        match self {
            Entry::Dir => EntryV::Dir,
            Entry::File { content } => EntryV::File { content: *content },
            Entry::Link { target } => EntryV::Link { target: target@ },
        }
    }
}

impl Entry {
    /// An identical entry; the model needs copies when mirroring a subtree.
    pub fn duplicate(&self) -> (r: Entry)
        ensures
            r == *self,
    {
        match self {
            Entry::Dir => Entry::Dir,
            Entry::File { content } => Entry::File { content: *content },
            Entry::Link { target } => Entry::Link { target: target.clone() },
        }
    }
}

/// `k` lies strictly inside the subtree rooted at `base`: it extends `base`
/// and the first extending character is the path separator.
pub open spec fn strictly_under(base: Seq<char>, k: Seq<char>) -> bool {
    k.len() > base.len() && k.take(base.len() as int) == base && k[base.len() as int] == '/'
}

/// `k` is `base` itself or lies strictly inside its subtree.
pub open spec fn in_subtree(base: Seq<char>, k: Seq<char>) -> bool {
    k == base || strictly_under(base, k)
}

/// Whether some pair in `s` has key view `k`.
pub open spec fn pairs_have_key(s: Seq<(String, Entry)>, k: Seq<char>) -> bool {
    exists|i: int| 0 <= i < s.len() && (#[trigger] s[i]).0@ == k
}

/// An index of the pair with key view `k` (the only one, when keys are
/// distinct).
pub open spec fn pairs_index_of(s: Seq<(String, Entry)>, k: Seq<char>) -> int {
    choose|i: int| 0 <= i < s.len() && (#[trigger] s[i]).0@ == k
}

/// The finite map described by a sequence of key/entry pairs.
pub open spec fn pairs_map(s: Seq<(String, Entry)>) -> Map<Seq<char>, EntryV> {
    Map::new(|k: Seq<char>| pairs_have_key(s, k), |k: Seq<char>| s[pairs_index_of(s, k)].1@)
}

/// The keys of `s` are pairwise distinct.
pub open spec fn pairs_distinct(s: Seq<(String, Entry)>) -> bool {
    forall|i: int, j: int|
        0 <= i < j < s.len() ==> (#[trigger] s[i]).0@ != (#[trigger] s[j]).0@
}

/// With distinct keys, the pair at `i` is what the map holds at its key.
pub proof fn lemma_pairs_at(s: Seq<(String, Entry)>, i: int)
    requires
        pairs_distinct(s),
        0 <= i < s.len(),
    ensures
        pairs_map(s).dom().contains(s[i].0@),
        pairs_map(s)[s[i].0@] == s[i].1@,
{
    assert(pairs_have_key(s, s[i].0@));
    let j = pairs_index_of(s, s[i].0@);
    assert(0 <= j < s.len() && s[j].0@ == s[i].0@);
    assert(j == i);
}

/// Appending a pair with a fresh key inserts it into the described map.
pub proof fn lemma_pairs_push(s: Seq<(String, Entry)>, p: String, e: Entry)
    requires
        pairs_distinct(s),
        !pairs_have_key(s, p@),
    ensures
        pairs_distinct(s.push((p, e))),
        pairs_map(s.push((p, e))) == pairs_map(s).insert(p@, e@),
{
    let s2 = s.push((p, e));
    assert forall|i: int, j: int| 0 <= i < j < s2.len() implies (#[trigger] s2[i]).0@
        != (#[trigger] s2[j]).0@ by {
        if j < s.len() {
            assert(s2[i] == s[i] && s2[j] == s[j]);
        } else {
            assert(s2[j] == (p, e));
            assert(s2[i] == s[i]);
            assert(!(s[i].0@ == p@)) by {
                if s[i].0@ == p@ {
                    assert(pairs_have_key(s, p@));
                }
            }
        }
    }
    assert_maps_equal!(pairs_map(s2), pairs_map(s).insert(p@, e@), k => {
        if k == p@ {
            assert(s2[s.len() as int] == (p, e));
            assert(pairs_have_key(s2, k));
            lemma_pairs_at(s2, s.len() as int);
        } else {
            if pairs_have_key(s2, k) {
                let i = choose|i: int| 0 <= i < s2.len() && (#[trigger] s2[i]).0@ == k;
                assert(i < s.len());
                assert(s2[i] == s[i]);
                assert(pairs_have_key(s, k));
                lemma_pairs_at(s, i);
                lemma_pairs_at(s2, i);
            }
            if pairs_have_key(s, k) {
                let i = choose|i: int| 0 <= i < s.len() && (#[trigger] s[i]).0@ == k;
                assert(s2[i] == s[i]);
                assert(pairs_have_key(s2, k));
            }
        }
    });
}

/// `m` with the whole subtree rooted at `p` removed, as removing a
/// directory recursively does.
pub open spec fn subtree_removed(m: Map<Seq<char>, EntryV>, p: Seq<char>) -> Map<
    Seq<char>,
    EntryV,
> {
    Map::new(|k: Seq<char>| m.dom().contains(k) && !in_subtree(p, k), |k: Seq<char>| m[k])
}

/// `m` after removing whatever is at `p`: a directory disappears with its
/// whole subtree, a file or link alone, a missing path changes nothing.
pub open spec fn spec_remove_all(m: Map<Seq<char>, EntryV>, p: Seq<char>) -> Map<
    Seq<char>,
    EntryV,
> {
    if m.dom().contains(p) {
        if m[p] is Dir {
            subtree_removed(m, p)
        } else {
            m.remove(p)
        }
    } else {
        m
    }
}

/// The key a source path `k` inside the subtree of `s` maps to when that
/// subtree is mirrored at `d`: `d` followed by the suffix of `k` past `s`.
pub open spec fn mirror_key(s: Seq<char>, d: Seq<char>, k: Seq<char>) -> Seq<char> {
    d + k.skip(s.len() as int)
}

/// The entries a recursive copy of the subtree at `s` places at `d`: for
/// every source key in the subtree of `s`, the same entry under the
/// mirrored key.
pub open spec fn mirror(m: Map<Seq<char>, EntryV>, s: Seq<char>, d: Seq<char>) -> Map<
    Seq<char>,
    EntryV,
> {
    Map::new(
        |nk: Seq<char>|
            (nk == d && m.dom().contains(s)) || (strictly_under(d, nk) && m.dom().contains(
                s + nk.skip(d.len() as int),
            )),
        |nk: Seq<char>|
            if nk == d {
                m[s]
            } else {
                m[s + nk.skip(d.len() as int)]
            },
    )
}

/// `m` after copying the entry at `s` to `d`: a directory is mirrored with
/// its whole subtree, any other entry is placed at `d` alone, and a missing
/// source changes nothing.
pub open spec fn spec_do_copy(m: Map<Seq<char>, EntryV>, s: Seq<char>, d: Seq<char>) -> Map<
    Seq<char>,
    EntryV,
> {
    if m.dom().contains(s) {
        if m[s] is Dir {
            m.union_prefer_right(mirror(m, s, d))
        } else {
            m.insert(d, m[s])
        }
    } else {
        m
    }
}

/// The pair `pr` mirrors the source pair at index `t`: its key is the
/// mirrored key and its entry the same.
pub open spec fn is_mirror_of(
    src: Seq<(String, Entry)>,
    s: Seq<char>,
    d: Seq<char>,
    t: int,
    pr: (String, Entry),
) -> bool {
    0 <= t < src.len() && in_subtree(s, src[t].0@) && pr.0@ == mirror_key(s, d, src[t].0@)
        && pr.1 == src[t].1
}

/// Distinct keys inside the subtree of `s` mirror to distinct keys.
pub proof fn lemma_mirror_key_injective(s: Seq<char>, d: Seq<char>, a: Seq<char>, b: Seq<char>)
    requires
        in_subtree(s, a),
        in_subtree(s, b),
        mirror_key(s, d, a) == mirror_key(s, d, b),
    ensures
        a == b,
{
    assert((d + a.skip(s.len() as int)).skip(d.len() as int) =~= a.skip(s.len() as int));
    assert((d + b.skip(s.len() as int)).skip(d.len() as int) =~= b.skip(s.len() as int));
    assert(a.skip(s.len() as int) == b.skip(s.len() as int));
    assert(a.take(s.len() as int) =~= s);
    assert(b.take(s.len() as int) =~= s);
    assert(a =~= a.take(s.len() as int) + a.skip(s.len() as int));
    assert(b =~= b.take(s.len() as int) + b.skip(s.len() as int));
}

/// For a key `k` in the subtree of `s`, where its mirrored key lies: at `d`
/// itself when `k` is `s`, else strictly inside the subtree of `d`, with
/// the original key recoverable from it.
pub proof fn lemma_subtree_key_mirrors(s: Seq<char>, d: Seq<char>, k: Seq<char>)
    requires
        in_subtree(s, k),
    ensures
        k == s ==> mirror_key(s, d, k) == d,
        k != s ==> strictly_under(d, mirror_key(s, d, k)) && s + mirror_key(s, d, k).skip(
            d.len() as int,
        ) == k,
{
    let nk = mirror_key(s, d, k);
    if k == s {
        assert(k.skip(s.len() as int) =~= Seq::<char>::empty());
        assert(nk =~= d);
    } else {
        assert(k.len() > s.len());
        assert(nk.len() > d.len());
        assert(nk.take(d.len() as int) =~= d);
        assert(nk[d.len() as int] == k[s.len() as int]);
        assert(nk.skip(d.len() as int) =~= k.skip(s.len() as int));
        assert(k.take(s.len() as int) =~= s);
        assert(s + nk.skip(d.len() as int) =~= k);
    }
}

/// Pairs collected index by index from the subtree of `s` describe exactly
/// the mirrored subtree: `srcidx` names each pair's source index and `dst`
/// each source index's pair.
pub proof fn lemma_pairs_are_mirror(
    src: Seq<(String, Entry)>,
    adds: Seq<(String, Entry)>,
    srcidx: Seq<int>,
    dst: Map<int, int>,
    s: Seq<char>,
    d: Seq<char>,
)
    requires
        pairs_distinct(src),
        pairs_distinct(adds),
        srcidx.len() == adds.len(),
        forall|j: int| #![trigger srcidx[j]]
            0 <= j < adds.len() ==> 0 <= srcidx[j] < src.len() && is_mirror_of(
                src,
                s,
                d,
                srcidx[j],
                adds[j],
            ),
        forall|t: int| #![trigger src[t]]
            0 <= t < src.len() && in_subtree(s, src[t].0@) ==> dst.dom().contains(t) && 0 <= dst[t]
                < adds.len() && is_mirror_of(src, s, d, t, adds[dst[t]]),
    ensures
        pairs_map(adds) == mirror(pairs_map(src), s, d),
{
    assert_maps_equal!(pairs_map(adds), mirror(pairs_map(src), s, d), nk => {
        if pairs_have_key(adds, nk) {
            let j = choose|j: int| 0 <= j < adds.len() && (#[trigger] adds[j]).0@ == nk;
            let t = srcidx[j];
            assert(is_mirror_of(src, s, d, t, adds[j]));
            let k = src[t].0@;
            lemma_pairs_at(adds, j);
            lemma_pairs_at(src, t);
            lemma_subtree_key_mirrors(s, d, k);
            if k == s {
                assert(nk == d);
            } else {
                assert(strictly_under(d, nk) && s + nk.skip(d.len() as int) == k);
            }
        } else {
            if nk == d && pairs_map(src).dom().contains(s) {
                let t = choose|t: int| 0 <= t < src.len() && (#[trigger] src[t]).0@ == s;
                assert(in_subtree(s, src[t].0@));
                let j = dst[t];
                assert(is_mirror_of(src, s, d, t, adds[j]));
                assert(adds[j].0@ == d + s.skip(s.len() as int));
                assert(s.skip(s.len() as int) =~= Seq::<char>::empty());
                assert(adds[j].0@ =~= d);
                assert(pairs_have_key(adds, nk));
            } else if strictly_under(d, nk) && pairs_map(src).dom().contains(
                s + nk.skip(d.len() as int),
            ) {
                let k = s + nk.skip(d.len() as int);
                let t = choose|t: int| 0 <= t < src.len() && (#[trigger] src[t]).0@ == k;
                assert(in_subtree(s, src[t].0@)) by {
                    assert(k.take(s.len() as int) =~= s);
                    assert(k[s.len() as int] == nk[d.len() as int]);
                }
                let j = dst[t];
                assert(is_mirror_of(src, s, d, t, adds[j]));
                assert(adds[j].0@ == d + k.skip(s.len() as int));
                assert(k.skip(s.len() as int) =~= nk.skip(d.len() as int));
                assert(adds[j].0@ =~= nk.take(d.len() as int) + nk.skip(d.len() as int));
                assert(adds[j].0@ =~= nk);
                assert(pairs_have_key(adds, nk));
            }
        }
    });
}

/// Whether `k` lies strictly inside the subtree rooted at `base`.
pub fn strictly_under_exec(base: &str, k: &str) -> (r: bool)
    ensures
        r == strictly_under(base@, k@),
{
    let bn = base.unicode_len();
    let kn = k.unicode_len();
    if kn <= bn {
        return false;
    }
    if k.get_char(bn) != '/' {
        return false;
    }
    let mut j: usize = 0;
    while j < bn
        invariant
            bn == base@.len(),
            kn == k@.len(),
            bn < kn,
            0 <= j <= bn,
            forall|t: int| 0 <= t < j ==> k@[t] == base@[t],
        decreases bn - j,
    {
        if k.get_char(j) != base.get_char(j) {
            proof {
                assert(k@.take(bn as int)[j as int] == k@[j as int]);
            }
            return false;
        }
        j += 1;
    }
    proof {
        assert(k@.take(bn as int) =~= base@);
    }
    true
}

/// Whether `k` is `base` itself or lies inside its subtree.
pub fn in_subtree_exec(base: &str, k: &str) -> (r: bool)
    ensures
        r == in_subtree(base@, k@),
{
    str_eq(base, k) || strictly_under_exec(base, k)
}

/// The filesystem model: a finite set of paths, each holding one entry.
pub struct Fs {
    entries: Vec<(String, Entry)>,
}

impl View for Fs {
    type V = Map<Seq<char>, EntryV>;

    closed spec fn view(&self) -> Map<Seq<char>, EntryV> {
        pairs_map(self.entries@)
    }
}

impl Fs {
    /// The structural invariant: no path occurs twice.
    pub closed spec fn wf(&self) -> bool {
        pairs_distinct(self.entries@)
    }

    /// An empty filesystem model.
    pub fn new() -> (r: Fs)
        ensures
            r.wf(),
            r@ == Map::<Seq<char>, EntryV>::empty(),
    {
        let r = Fs { entries: Vec::new() };
        proof {
            assert(r@ =~= Map::<Seq<char>, EntryV>::empty());
        }
        r
    }

    /// The entry at `p`, if the path exists.
    pub fn lookup(&self, p: &str) -> (r: Option<Entry>)
        requires
            self.wf(),
        ensures
            r is Some <==> self@.dom().contains(p@),
            r matches Some(e) ==> self@[p@] == e@,
    {
        let n = self.entries.len();
        let mut i: usize = 0;
        while i < n
            invariant
                self.wf(),
                n == self.entries.len(),
                0 <= i <= n,
                forall|j: int| 0 <= j < i ==> (#[trigger] self.entries@[j]).0@ != p@,
            decreases n - i,
        {
            if str_eq(self.entries[i].0.as_str(), p) {
                proof {
                    lemma_pairs_at(self.entries@, i as int);
                }
                return Some(self.entries[i].1.duplicate());
            }
            i += 1;
        }
        proof {
            assert(!pairs_have_key(self.entries@, p@));
        }
        None
    }

    /// Whether the path exists at all.
    pub fn contains(&self, p: &str) -> (r: bool)
        requires
            self.wf(),
        ensures
            r == self@.dom().contains(p@),
    {
        self.lookup(p).is_some()
    }

    /// Puts `e` at path `p`, replacing whatever was there.
    pub fn set(&mut self, p: &str, e: Entry)
        requires
            old(self).wf(),
        ensures
            final(self).wf(),
            final(self)@ == old(self)@.insert(p@, e@),
    {
        self.remove_key(p);
        let ghost mid = self.entries@;
        proof {
            assert(!self@.dom().contains(p@));
            assert(!pairs_have_key(mid, p@));
        }
        self.entries.push((String::from_str(p), e));
        proof {
            let last = self.entries@.last();
            assert(last.0@ == p@);
            lemma_pairs_push(mid, last.0, last.1);
            assert(self.entries@ =~= mid.push(last));
            assert(self@ =~= old(self)@.insert(p@, e@));
        }
    }

    /// Removes the key `p` alone, as removing a regular file or a link does.
    pub fn remove_key(&mut self, p: &str)
        requires
            old(self).wf(),
        ensures
            final(self).wf(),
            final(self)@ == old(self)@.remove(p@),
    {
        let n = self.entries.len();
        let mut out: Vec<(String, Entry)> = Vec::new();
        let mut i: usize = 0;
        while i < n
            invariant
                old(self).wf(),
                n == self.entries.len(),
                self.entries@ == old(self).entries@,
                0 <= i <= n,
                forall|j: int|
                    0 <= j < out@.len() ==> exists|t: int|
                        0 <= t < i && (#[trigger] out@[j]) == self.entries@[t],
                forall|j: int| 0 <= j < out@.len() ==> (#[trigger] out@[j]).0@ != p@,
                forall|t: int|
                    0 <= t < i && (#[trigger] self.entries@[t]).0@ != p@ ==> out@.contains(
                        self.entries@[t],
                    ),
                pairs_distinct(out@),
            decreases n - i,
        {
            if !str_eq(self.entries[i].0.as_str(), p) {
                let ghost pre = out@;
                out.push((self.entries[i].0.clone(), self.entries[i].1.duplicate()));
                proof {
                    assert(out@ == pre.push(self.entries@[i as int]));
                    assert(out@.last() == self.entries@[i as int]);
                    assert(forall|j: int| 0 <= j < pre.len() ==> (#[trigger] out@[j]) == pre[j]);
                    assert forall|j1: int, j2: int| 0 <= j1 < j2 < out@.len() implies (
                    #[trigger] out@[j1]).0@ != (#[trigger] out@[j2]).0@ by {
                        if j2 == out@.len() - 1 {
                            let t1 = choose|t: int|
                                0 <= t < i && (#[trigger] out@[j1]) == self.entries@[t];
                            assert(self.entries@[t1].0@ != self.entries@[i as int].0@);
                        }
                    }
                    assert forall|t: int|
                        0 <= t <= i && (#[trigger] self.entries@[t]).0@ != p@ implies out@.contains(
                        self.entries@[t],
                    ) by {
                        if t < i {
                            assert(pre.contains(self.entries@[t]));
                            let j = choose|j: int|
                                0 <= j < pre.len() && pre[j] == self.entries@[t];
                            assert(out@[j] == self.entries@[t]);
                        } else {
                            assert(out@[out@.len() - 1] == self.entries@[t]);
                        }
                    }
                }
            }
            i += 1;
        }
        let ghost sold = self.entries@;
        self.entries = out;
        proof {
            let snew = self.entries@;
            assert_maps_equal!(self@, old(self)@.remove(p@), k => {
                if pairs_have_key(snew, k) {
                    let j = choose|j: int|
                        0 <= j < snew.len() && (#[trigger] snew[j]).0@ == k;
                    assert(exists|t: int| 0 <= t < n && (#[trigger] snew[j]) == sold[t]);
                    let t = choose|t: int| 0 <= t < n && (#[trigger] snew[j]) == sold[t];
                    assert(sold[t].0@ == k);
                    assert(k != p@);
                    lemma_pairs_at(snew, j);
                    lemma_pairs_at(sold, t);
                    assert(pairs_have_key(sold, k));
                } else {
                    if pairs_have_key(sold, k) && k != p@ {
                        let t = choose|t: int|
                            0 <= t < sold.len() && (#[trigger] sold[t]).0@ == k;
                        assert(snew.contains(sold[t]));
                        let j = choose|j: int| 0 <= j < snew.len() && snew[j] == sold[t];
                        assert(pairs_have_key(snew, k));
                    }
                }
            });
        }
    }

    /// Removes the whole subtree rooted at `p`, as removing a directory
    /// recursively does.
    pub fn remove_subtree(&mut self, p: &str)
        requires
            old(self).wf(),
        ensures
            final(self).wf(),
            final(self)@ == subtree_removed(old(self)@, p@),
    {
        let n = self.entries.len();
        let mut out: Vec<(String, Entry)> = Vec::new();
        let mut i: usize = 0;
        while i < n
            invariant
                old(self).wf(),
                n == self.entries.len(),
                self.entries@ == old(self).entries@,
                0 <= i <= n,
                forall|j: int|
                    0 <= j < out@.len() ==> exists|t: int|
                        0 <= t < i && (#[trigger] out@[j]) == self.entries@[t],
                forall|j: int| 0 <= j < out@.len() ==> !in_subtree(p@, (#[trigger] out@[j]).0@),
                forall|t: int|
                    0 <= t < i && !in_subtree(p@, (#[trigger] self.entries@[t]).0@)
                        ==> out@.contains(self.entries@[t]),
                pairs_distinct(out@),
            decreases n - i,
        {
            if !in_subtree_exec(p, self.entries[i].0.as_str()) {
                let ghost pre = out@;
                out.push((self.entries[i].0.clone(), self.entries[i].1.duplicate()));
                proof {
                    assert(out@ == pre.push(self.entries@[i as int]));
                    assert(out@.last() == self.entries@[i as int]);
                    assert(forall|j: int| 0 <= j < pre.len() ==> (#[trigger] out@[j]) == pre[j]);
                    assert forall|j1: int, j2: int| 0 <= j1 < j2 < out@.len() implies (
                    #[trigger] out@[j1]).0@ != (#[trigger] out@[j2]).0@ by {
                        if j2 == out@.len() - 1 {
                            let t1 = choose|t: int|
                                0 <= t < i && (#[trigger] out@[j1]) == self.entries@[t];
                            assert(self.entries@[t1].0@ != self.entries@[i as int].0@);
                        }
                    }
                    assert forall|t: int|
                        0 <= t <= i && !in_subtree(
                            p@,
                            (#[trigger] self.entries@[t]).0@,
                        ) implies out@.contains(self.entries@[t]) by {
                        if t < i {
                            assert(pre.contains(self.entries@[t]));
                            let j = choose|j: int|
                                0 <= j < pre.len() && pre[j] == self.entries@[t];
                            assert(out@[j] == self.entries@[t]);
                        } else {
                            assert(out@[out@.len() - 1] == self.entries@[t]);
                        }
                    }
                }
            }
            i += 1;
        }
        let ghost sold = self.entries@;
        self.entries = out;
        proof {
            let snew = self.entries@;
            assert_maps_equal!(self@, subtree_removed(old(self)@, p@), k => {
                if pairs_have_key(snew, k) {
                    let j = choose|j: int|
                        0 <= j < snew.len() && (#[trigger] snew[j]).0@ == k;
                    assert(exists|t: int| 0 <= t < n && (#[trigger] snew[j]) == sold[t]);
                    let t = choose|t: int| 0 <= t < n && (#[trigger] snew[j]) == sold[t];
                    assert(sold[t].0@ == k);
                    assert(!in_subtree(p@, k));
                    lemma_pairs_at(snew, j);
                    lemma_pairs_at(sold, t);
                    assert(pairs_have_key(sold, k));
                } else {
                    if pairs_have_key(sold, k) && !in_subtree(p@, k) {
                        let t = choose|t: int|
                            0 <= t < sold.len() && (#[trigger] sold[t]).0@ == k;
                        assert(snew.contains(sold[t]));
                        let j = choose|j: int| 0 <= j < snew.len() && snew[j] == sold[t];
                        assert(pairs_have_key(snew, k));
                    }
                }
            });
        }
    }

    /// Removes whatever is at `p`: a directory with its subtree, a file or
    /// link alone; a missing path is left alone.
    pub fn remove_all(&mut self, p: &str)
        requires
            old(self).wf(),
        ensures
            final(self).wf(),
            final(self)@ == spec_remove_all(old(self)@, p@),
    {
        match self.lookup(p) {
            Some(Entry::Dir) => self.remove_subtree(p),
            Some(_) => self.remove_key(p),
            None => (),
        }
    }

    /// Copies the entry at `s` to `d`: a directory is mirrored with its
    /// whole subtree, any other entry is placed at `d` alone; a missing
    /// source changes nothing.
    pub fn do_copy(&mut self, s: &str, d: &str)
        requires
            old(self).wf(),
        ensures
            final(self).wf(),
            final(self)@ == spec_do_copy(old(self)@, s@, d@),
    {
        match self.lookup(s) {
            None => (),
            Some(Entry::Dir) => self.mirror_into(s, d),
            Some(e) => self.set(d, e),
        }
    }

    /// Places, for every existing key in the subtree of `s`, the same entry
    /// under the mirrored key past `d`.
    fn mirror_into(&mut self, s: &str, d: &str)
        requires
            old(self).wf(),
        ensures
            final(self).wf(),
            final(self)@ == old(self)@.union_prefer_right(mirror(old(self)@, s@, d@)),
    {
        let adds = self.collect_mirror(s, d);
        self.insert_pairs(adds);
    }

    /// Collects, for every existing key in the subtree of `s`, the same
    /// entry paired with the mirrored key past `d`.
    fn collect_mirror(&self, s: &str, d: &str) -> (adds: Vec<(String, Entry)>)
        requires
            self.wf(),
        ensures
            pairs_distinct(adds@),
            pairs_map(adds@) == mirror(self@, s@, d@),
    {
        let n = self.entries.len();
        let slen = s.unicode_len();
        let mut adds: Vec<(String, Entry)> = Vec::new();
        let ghost mut srcidx: Seq<int> = Seq::empty();
        let ghost mut dst: Map<int, int> = Map::empty();
        let mut i: usize = 0;
        while i < n
            invariant
                self.wf(),
                n == self.entries.len(),
                slen == s@.len(),
                0 <= i <= n,
                srcidx.len() == adds@.len(),
                forall|j: int| #![trigger srcidx[j]]
                    0 <= j < adds@.len() ==> 0 <= srcidx[j] < i && is_mirror_of(
                        self.entries@,
                        s@,
                        d@,
                        srcidx[j],
                        adds@[j],
                    ),
                forall|t: int| #![trigger self.entries@[t]]
                    0 <= t < i && in_subtree(s@, self.entries@[t].0@) ==> dst.dom().contains(t)
                        && 0 <= dst[t] < adds@.len() && is_mirror_of(
                        self.entries@,
                        s@,
                        d@,
                        t,
                        adds@[dst[t]],
                    ),
                pairs_distinct(adds@),
            decreases n - i,
        {
            if in_subtree_exec(s, self.entries[i].0.as_str()) {
                let k = self.entries[i].0.as_str();
                let klen = k.unicode_len();
                let suffix = k.substring_char(slen, klen);
                let mut nk = String::from_str(d);
                nk.append(suffix);
                proof {
                    assert(suffix@ =~= k@.skip(slen as int));
                    assert(nk@ == mirror_key(s@, d@, self.entries@[i as int].0@));
                }
                let ghost pre = adds@;
                let ghost presrc = srcidx;
                adds.push((nk, self.entries[i].1.duplicate()));
                proof {
                    srcidx = srcidx.push(i as int);
                    dst = dst.insert(i as int, pre.len() as int);
                    assert(adds@ == pre.push(adds@.last()));
                    assert(is_mirror_of(self.entries@, s@, d@, i as int, adds@[adds@.len() - 1]));
                    assert forall|j: int| #![trigger srcidx[j]] 0 <= j < adds@.len() implies 0
                        <= srcidx[j] < i + 1 && is_mirror_of(
                        self.entries@,
                        s@,
                        d@,
                        srcidx[j],
                        adds@[j],
                    ) by {
                        if j < pre.len() {
                            assert(adds@[j] == pre[j]);
                            assert(srcidx[j] == presrc[j]);
                            assert(0 <= presrc[j] < i && is_mirror_of(
                                self.entries@,
                                s@,
                                d@,
                                presrc[j],
                                pre[j],
                            ));
                        } else {
                            assert(srcidx[j] == i as int);
                            assert(adds@[j] == adds@[adds@.len() - 1]);
                        }
                    }
                    assert forall|j1: int, j2: int| 0 <= j1 < j2 < adds@.len() implies (
                    #[trigger] adds@[j1]).0@ != (#[trigger] adds@[j2]).0@ by {
                        if j2 == adds@.len() - 1 {
                            assert(pre[j1] == adds@[j1]);
                            let t1 = srcidx[j1];
                            assert(is_mirror_of(self.entries@, s@, d@, t1, adds@[j1]));
                            if adds@[j1].0@ == adds@[j2].0@ {
                                lemma_mirror_key_injective(
                                    s@,
                                    d@,
                                    self.entries@[t1].0@,
                                    self.entries@[i as int].0@,
                                );
                            }
                        }
                    }
                }
            } else {
                proof {
                    assert forall|j: int| #![trigger srcidx[j]] 0 <= j < adds@.len() implies 0
                        <= srcidx[j] < i + 1 && is_mirror_of(
                        self.entries@,
                        s@,
                        d@,
                        srcidx[j],
                        adds@[j],
                    ) by {
                        assert(0 <= srcidx[j] < i && is_mirror_of(
                            self.entries@,
                            s@,
                            d@,
                            srcidx[j],
                            adds@[j],
                        ));
                    }
                }
            }
            i += 1;
        }
        proof {
            lemma_pairs_are_mirror(self.entries@, adds@, srcidx, dst, s@, d@);
            assert(self@ == pairs_map(self.entries@));
        }
        adds
    }

    /// Inserts each collected pair, folding them into the map.
    fn insert_pairs(&mut self, adds: Vec<(String, Entry)>)
        requires
            old(self).wf(),
            pairs_distinct(adds@),
        ensures
            final(self).wf(),
            final(self)@ == old(self)@.union_prefer_right(pairs_map(adds@)),
    {
        let m = adds.len();
        let ghost madds = adds@;
        let mut r: usize = 0;
        proof {
            assert(madds.take(0int) =~= Seq::<(String, Entry)>::empty());
            assert_maps_equal!(
                old(self)@.union_prefer_right(pairs_map(madds.take(0int))),
                old(self)@,
                k => {}
            );
        }
        while r < m
            invariant
                old(self).wf(),
                self.wf(),
                m == adds@.len(),
                adds@ == madds,
                pairs_distinct(madds),
                0 <= r <= m,
                self@ == old(self)@.union_prefer_right(pairs_map(madds.take(r as int))),
            decreases m - r,
        {
            self.set(adds[r].0.as_str(), adds[r].1.duplicate());
            proof {
                let taken = madds.take(r as int);
                let pair = madds[r as int];
                assert(!pairs_have_key(taken, pair.0@)) by {
                    if pairs_have_key(taken, pair.0@) {
                        let j = choose|j: int|
                            0 <= j < taken.len() && (#[trigger] taken[j]).0@ == pair.0@;
                        assert(madds[j].0@ == madds[r as int].0@);
                    }
                }
                lemma_pairs_push(taken, pair.0, pair.1);
                assert(madds.take(r + 1 as int) =~= taken.push(pair));
                assert_maps_equal!(
                    old(self)@.union_prefer_right(pairs_map(taken)).insert(pair.0@, pair.1@),
                    old(self)@.union_prefer_right(pairs_map(taken).insert(pair.0@, pair.1@)),
                    k => {}
                );
            }
            r += 1;
        }
        proof {
            assert(madds.take(m as int) =~= madds);
        }
    }

    /// An identical filesystem model, for simulating a run without touching
    /// the original.
    pub fn duplicate(&self) -> (r: Fs)
        requires
            self.wf(),
        ensures
            r.wf(),
            r@ == self@,
    {
        let n = self.entries.len();
        let mut out: Vec<(String, Entry)> = Vec::new();
        let mut i: usize = 0;
        while i < n
            invariant
                self.wf(),
                n == self.entries.len(),
                0 <= i <= n,
                out@ =~= self.entries@.take(i as int),
            decreases n - i,
        {
            out.push((self.entries[i].0.clone(), self.entries[i].1.duplicate()));
            proof {
                assert(out@ =~= self.entries@.take(i + 1 as int));
            }
            i += 1;
        }
        proof {
            assert(out@ =~= self.entries@);
        }
        Fs { entries: out }
    }
}

} // verus!
