//! The engine's laws: what holds of whole runs, proved from the run
//! semantics of [`crate::engine`].

use crate::config::ConfigV;
use crate::engine::CmdResult;
use crate::engine::ErrKind;
use crate::engine::Outcome;
use crate::engine::is_root_path;
use crate::engine::spec_cmd_step;
use crate::engine::spec_cmds;
use crate::engine::spec_copies;
use crate::engine::spec_copy_step;
use crate::engine::spec_dir_step;
use crate::engine::spec_dirs;
use crate::engine::spec_file_step;
use crate::engine::spec_is_dir;
use crate::engine::spec_files;
use crate::engine::spec_link_step;
use crate::engine::spec_links;
use crate::engine::spec_mkdirp;
use crate::engine::spec_mkdirp_from;
use crate::engine::spec_run;
use crate::fs_model::EntryV;
use crate::fs_model::in_subtree;
use crate::fs_model::mirror;
use crate::fs_model::spec_do_copy;
use crate::fs_model::spec_remove_all;
use crate::fs_model::strictly_under;
use crate::fs_model::subtree_removed;
use crate::paths::spec_expand_user;
use vstd::prelude::*;

verus! {

/// Link correctness: with the target present and the link path absent, a
/// run over a document declaring that one link creates at the link path a
/// symbolic link whose target is the resolved (canonical) target path, and
/// changes nothing else.
pub proof fn lemma_link_correctness(
    m: Map<Seq<char>, EntryV>,
    cfg: ConfigV,
    home: Seq<char>,
    replace: bool,
    ans: Seq<bool>,
    evs: Seq<CmdResult>,
)
    requires
        cfg.directories.len() == 0,
        cfg.files.len() == 0,
        cfg.copy.len() == 0,
        cfg.commands.len() == 0,
        cfg.links.len() == 1,
        m.dom().contains(spec_expand_user(cfg.links[0].0, home)),
        !m.dom().contains(spec_expand_user(cfg.links[0].1, home)),
    ensures
        ({
            let t = spec_expand_user(cfg.links[0].0, home);
            let l = spec_expand_user(cfg.links[0].1, home);
            let (o, m2) = spec_run(m, cfg, replace, false, home, ans, evs);
            o =~= seq![Outcome::Created] && m2 == m.insert(l, EntryV::Link { target: t })
        }),
{
    let t = spec_expand_user(cfg.links[0].0, home);
    let l = spec_expand_user(cfg.links[0].1, home);
    assert(spec_dirs(m, cfg.directories, home) == (Seq::<Outcome>::empty(), m));
    assert(spec_files(m, cfg.files, replace, home, ans, 0) == (Seq::<Outcome>::empty(), m, 0int));
    let (o3, m3, ai3) = spec_links(m, cfg.links, replace, home, ans, 0);
    let step = spec_link_step(m, t, l, replace, ans, 0);
    assert(step == (Outcome::Created, m.insert(l, EntryV::Link { target: t }), 0int));
    assert(cfg.links.skip(1).len() == 0);
    let rest = spec_links(step.1, cfg.links.skip(1), replace, home, ans, step.2);
    assert(rest == (Seq::<Outcome>::empty(), step.1, step.2));
    assert(o3 =~= seq![Outcome::Created]);
    assert(m3 == m.insert(l, EntryV::Link { target: t }));
    assert(spec_copies(m3, cfg.copy, replace, home, ans, ai3) == (
        Seq::<Outcome>::empty(),
        m3,
        ai3,
    ));
    assert(spec_cmds(cfg.commands, evs, 0, false) == Seq::<Outcome>::empty());
    let (o, m2) = spec_run(m, cfg, replace, false, home, ans, evs);
    assert(o =~= o3);
}

/// All separator-bounded proper prefixes of `p` from position `j` on are
/// directories in `m`.
pub open spec fn chain_is_dirs_from(m: Map<Seq<char>, EntryV>, p: Seq<char>, j: int) -> bool {
    forall|t: int|
        j <= t < p.len() && p[t] == '/' && !is_root_path(#[trigger] p.take(t))
            ==> m.dom().contains(p.take(t)) && m[p.take(t)] is Dir
}

/// All separator-bounded proper prefixes of `p` are directories in `m`.
pub open spec fn chain_is_dirs(m: Map<Seq<char>, EntryV>, p: Seq<char>) -> bool {
    chain_is_dirs_from(m, p, 1)
}

/// Walking a chain whose proper prefixes are already directories creates
/// nothing and succeeds.
pub proof fn lemma_mkdirp_from_noop(m: Map<Seq<char>, EntryV>, p: Seq<char>, j: int)
    requires
        chain_is_dirs_from(m, p, j),
    ensures
        spec_mkdirp_from(m, p, j, false) == (true, m),
    decreases p.len() + 1 - j,
{
    if j < 1 || j > p.len() {
    } else {
        lemma_mkdirp_from_noop(m, p, j + 1);
    }
}

/// `m2` extends `m1`: every entry of `m1` is in `m2` unchanged.
pub open spec fn m_extends(m2: Map<Seq<char>, EntryV>, m1: Map<Seq<char>, EntryV>) -> bool {
    forall|k: Seq<char>| #[trigger]
        m1.dom().contains(k) ==> m2.dom().contains(k) && m2[k] == m1[k]
}

/// What a chain walk does to the map: it only extends it, every entry it
/// adds is a directory, and on success every separator-bounded prefix it
/// considered is a directory afterwards.
pub proof fn lemma_mkdirp_from_props(
    m: Map<Seq<char>, EntryV>,
    p: Seq<char>,
    j: int,
    incl: bool,
)
    requires
        1 <= j,
    ensures
        ({
            let (ok, m2) = spec_mkdirp_from(m, p, j, incl);
            m_extends(m2, m) && (forall|k: Seq<char>|
                #[trigger] m2.dom().contains(k) && !m.dom().contains(k) ==> m2[k] is Dir) && (ok
                ==> forall|t: int|
                j <= t <= p.len() && ((t == p.len() && incl) || (t < p.len() && p[t] == '/'))
                    && !is_root_path(#[trigger] p.take(t)) ==> spec_is_dir(m2, p.take(t)))
        }),
    decreases p.len() + 1 - j,
{
    if j < 1 || j > p.len() {
    } else {
        let boundary = (j == p.len() && incl) || (j < p.len() && p[j] == '/');
        let k = p.take(j);
        if boundary && !is_root_path(k) {
            if !m.dom().contains(k) {
                let mi = m.insert(k, EntryV::Dir);
                lemma_mkdirp_from_props(mi, p, j + 1, incl);
                let (ok, m2) = spec_mkdirp_from(mi, p, j + 1, incl);
                assert forall|q: Seq<char>| #[trigger]
                    m.dom().contains(q) implies m2.dom().contains(q) && m2[q] == m[q] by {
                    assert(q != k);
                    assert(mi.dom().contains(q) && mi[q] == m[q]);
                }
                assert(m_extends(m2, m));
                assert forall|q: Seq<char>| #[trigger]
                    m2.dom().contains(q) && !m.dom().contains(q) implies m2[q] is Dir by {
                    if q == k {
                        assert(m2[k] == mi[k]);
                    }
                }
                if ok {
                    assert forall|t: int|
                        j <= t <= p.len() && ((t == p.len() && incl) || (t < p.len() && p[t]
                            == '/')) && !is_root_path(#[trigger] p.take(t)) implies spec_is_dir(
                        m2,
                        p.take(t),
                    ) by {
                        if t == j {
                            assert(mi.dom().contains(k) && mi[k] is Dir);
                            assert(m2[k] == mi[k]);
                        }
                    }
                }
            } else if m[k] is Dir {
                lemma_mkdirp_from_props(m, p, j + 1, incl);
                let (ok, m2) = spec_mkdirp_from(m, p, j + 1, incl);
                if ok {
                    assert forall|t: int|
                        j <= t <= p.len() && ((t == p.len() && incl) || (t < p.len() && p[t]
                            == '/')) && !is_root_path(#[trigger] p.take(t)) implies spec_is_dir(
                        m2,
                        p.take(t),
                    ) by {
                        if t == j {
                            assert(m2[k] == m[k]);
                        }
                    }
                }
            } else {
            }
        } else {
            lemma_mkdirp_from_props(m, p, j + 1, incl);
            if boundary && is_root_path(k) {
                let (ok, m2) = spec_mkdirp_from(m, p, j + 1, incl);
                if ok {
                    assert forall|t: int|
                        j <= t <= p.len() && ((t == p.len() && incl) || (t < p.len() && p[t]
                            == '/')) && !is_root_path(#[trigger] p.take(t)) implies spec_is_dir(
                        m2,
                        p.take(t),
                    ) by {}
                }
            }
        }
    }
}

/// What one directory item does to the map: it only extends it, adding
/// directories alone; and when it reports success the expanded path is a
/// directory afterwards.
pub proof fn lemma_dir_step_facts(m: Map<Seq<char>, EntryV>, p: Seq<char>)
    ensures
        ({
            let (o, m2) = spec_dir_step(m, p);
            m_extends(m2, m) && (forall|k: Seq<char>|
                #[trigger] m2.dom().contains(k) && !m.dom().contains(k) ==> m2[k] is Dir) && ((o
                == Outcome::Created || o == Outcome::SkippedAlreadySatisfied) && p.len() > 0
                ==> spec_is_dir(m2, p))
        }),
{
    let (o, m2) = spec_dir_step(m, p);
    if spec_is_dir(m, p) {
    } else {
        lemma_mkdirp_from_props(m, p, 1, true);
        if o == Outcome::Created && p.len() > 0 {
            assert(p.take(p.len() as int) =~= p);
            if !is_root_path(p) {
                assert(spec_is_dir(m2, p.take(p.len() as int)));
            }
        }
    }
}

/// What one file item that reports `Created` does: the path was absent and
/// is now an empty file with its parent chain in place; nothing existing
/// was touched; no answer was consumed; and the path is neither empty nor
/// the root.
pub proof fn lemma_file_step_created_facts(
    m: Map<Seq<char>, EntryV>,
    p: Seq<char>,
    replace: bool,
    ans: Seq<bool>,
    ai: int,
)
    ensures
        ({
            let (o, m2, ai2) = spec_file_step(m, p, replace, ans, ai);
            o == Outcome::Created ==> m_extends(m2, m) && m2.dom().contains(p) && m2[p] == (
            EntryV::File { content: 0 }) && chain_is_dirs(m2, p) && ai2 == ai && p.len() > 0
                && !is_root_path(p) && !m.dom().contains(p)
        }),
{
    let (o, m2, ai2) = spec_file_step(m, p, replace, ans, ai);
    if o == Outcome::Created && !(p.len() == 0 || is_root_path(p)) && !m.dom().contains(p) {
        lemma_mkdirp_from_props(m, p, 1, false);
        let (ok, mk) = spec_mkdirp(m, p, false);
        assert(m2 == mk.insert(p, EntryV::File { content: 0 }));
        assert forall|t: int|
            1 <= t < p.len() && p[t] == '/' && !is_root_path(
                #[trigger] p.take(t),
            ) implies m2.dom().contains(p.take(t)) && m2[p.take(t)] is Dir by {
            assert(spec_is_dir(mk, p.take(t)));
            assert(p.take(t).len() < p.len());
            assert(p.take(t) != p);
            assert(m2[p.take(t)] == mk[p.take(t)]);
        }
    }
}

/// What one link item that reports `Created` or already satisfied does:
/// the link path holds a link to the resolved target, the target exists,
/// nothing existing was touched, and no answer was consumed.
pub proof fn lemma_link_step_ok_facts(
    m: Map<Seq<char>, EntryV>,
    t: Seq<char>,
    l: Seq<char>,
    replace: bool,
    ans: Seq<bool>,
    ai: int,
)
    ensures
        ({
            let (o, m2, ai2) = spec_link_step(m, t, l, replace, ans, ai);
            (o == Outcome::Created || o == Outcome::SkippedAlreadySatisfied) ==> m_extends(m2, m)
                && m2.dom().contains(l) && m2[l] == (EntryV::Link { target: t })
                && m2.dom().contains(t) && ai2 == ai
        }),
{
}

/// Conflict-replace at a file: with the path held by a regular file whose
/// parent chain is in place, proceeding under the replace policy consumes
/// no answer, removes the file, recreates it empty and reports `Replaced`;
/// under `replace` false a declining answer is consumed and the entry is
/// left untouched, reporting `SkippedByUser`.
pub proof fn lemma_conflict_replace(
    m: Map<Seq<char>, EntryV>,
    p: Seq<char>,
    ans: Seq<bool>,
    ai: int,
)
    requires
        m.dom().contains(p),
        m[p] is File,
        p.len() > 0,
        !is_root_path(p),
        chain_is_dirs(m, p),
    ensures
        ({
            let (o, m2, ai2) = spec_file_step(m, p, true, ans, ai);
            o == Outcome::Replaced && ai2 == ai && m2 == m.remove(p).insert(
                p,
                EntryV::File { content: 0 },
            )
        }),
        0 <= ai < ans.len() && !ans[ai] ==> ({
            let (o, m2, ai2) = spec_file_step(m, p, false, ans, ai);
            o == Outcome::SkippedByUser && ai2 == ai + 1 && m2 == m
        }),
{
    let m1 = spec_remove_all(m, p);
    assert(m1 == m.remove(p));
    assert(chain_is_dirs_from(m1, p, 1)) by {
        assert forall|t: int|
            1 <= t < p.len() && p[t] == '/' && !is_root_path(
                #[trigger] p.take(t),
            ) implies m1.dom().contains(p.take(t)) && m1[p.take(t)] is Dir by {
            assert(p.take(t).len() < p.len());
            assert(p.take(t) != p);
        }
    }
    lemma_mkdirp_from_noop(m1, p, 1);
}

/// Conflict-replace over a whole run: a document declaring one file whose
/// path an entry already occupies. Under the replace policy the run
/// removes the entry and recreates the file empty, reporting `Replaced`;
/// without it, a declining first answer leaves the state untouched and the
/// run reports `SkippedByUser`.
pub proof fn lemma_conflict_replace_run(
    m: Map<Seq<char>, EntryV>,
    cfg: ConfigV,
    home: Seq<char>,
    ans: Seq<bool>,
    evs: Seq<CmdResult>,
)
    requires
        cfg.directories.len() == 0,
        cfg.links.len() == 0,
        cfg.copy.len() == 0,
        cfg.commands.len() == 0,
        cfg.files.len() == 1,
        ({
            let p = spec_expand_user(cfg.files[0], home);
            m.dom().contains(p) && m[p] is File && p.len() > 0 && !is_root_path(p)
                && chain_is_dirs(m, p)
        }),
    ensures
        ({
            let p = spec_expand_user(cfg.files[0], home);
            let (o, m2) = spec_run(m, cfg, true, false, home, ans, evs);
            o =~= seq![Outcome::Replaced] && m2 == m.remove(p).insert(
                p,
                EntryV::File { content: 0 },
            )
        }),
        ans.len() > 0 && !ans[0] ==> ({
            let (o, m2) = spec_run(m, cfg, false, false, home, ans, evs);
            o =~= seq![Outcome::SkippedByUser] && m2 == m
        }),
{
    let p = spec_expand_user(cfg.files[0], home);
    lemma_conflict_replace(m, p, ans, 0);
    assert(cfg.files.skip(1).len() == 0);

    let (o0t, m0t, a0t) = spec_file_step(m, p, true, ans, 0);
    assert(spec_files(m0t, cfg.files.skip(1), true, home, ans, a0t) == (
        Seq::<Outcome>::empty(),
        m0t,
        a0t,
    ));
    let (oft, mft, aft) = spec_files(m, cfg.files, true, home, ans, 0);
    assert(oft =~= seq![o0t]);
    let (ot, mt) = spec_run(m, cfg, true, false, home, ans, evs);
    assert(ot =~= oft);
    assert(ot =~= seq![Outcome::Replaced]);

    if ans.len() > 0 && !ans[0] {
        let (o0d, m0d, a0d) = spec_file_step(m, p, false, ans, 0);
        assert(spec_files(m0d, cfg.files.skip(1), false, home, ans, a0d) == (
            Seq::<Outcome>::empty(),
            m0d,
            a0d,
        ));
        let (ofd, mfd, afd) = spec_files(m, cfg.files, false, home, ans, 0);
        assert(ofd =~= seq![o0d]);
        let (od, md) = spec_run(m, cfg, false, false, home, ans, evs);
        assert(od =~= ofd);
        assert(od =~= seq![Outcome::SkippedByUser]);
    }
}

/// Copy semantics over a whole run: a document declaring one copy of an
/// existing source directory to an absent destination mirrors the source's
/// whole subtree at the destination and changes nothing else.
pub proof fn lemma_copy_semantics_run(
    m: Map<Seq<char>, EntryV>,
    cfg: ConfigV,
    home: Seq<char>,
    replace: bool,
    ans: Seq<bool>,
    evs: Seq<CmdResult>,
)
    requires
        cfg.directories.len() == 0,
        cfg.files.len() == 0,
        cfg.links.len() == 0,
        cfg.commands.len() == 0,
        cfg.copy.len() == 1,
        ({
            let s = spec_expand_user(cfg.copy[0].0, home);
            let d = spec_expand_user(cfg.copy[0].1, home);
            m.dom().contains(s) && m[s] is Dir && !m.dom().contains(d)
        }),
    ensures
        ({
            let s = spec_expand_user(cfg.copy[0].0, home);
            let d = spec_expand_user(cfg.copy[0].1, home);
            let (o, m2) = spec_run(m, cfg, replace, false, home, ans, evs);
            o =~= seq![Outcome::Created] && m2 == m.union_prefer_right(mirror(m, s, d))
        }),
{
    let s = spec_expand_user(cfg.copy[0].0, home);
    let d = spec_expand_user(cfg.copy[0].1, home);
    lemma_copy_creates_mirror(m, s, d, replace, ans, 0);
    assert(spec_dirs(m, cfg.directories, home) == (Seq::<Outcome>::empty(), m));
    assert(spec_files(m, cfg.files, replace, home, ans, 0) == (Seq::<Outcome>::empty(), m, 0int));
    assert(spec_links(m, cfg.links, replace, home, ans, 0) == (Seq::<Outcome>::empty(), m, 0int));
    let (oc, mc, ac) = spec_copies(m, cfg.copy, replace, home, ans, 0);
    let (o0, m0, a0) = spec_copy_step(m, s, d, replace, ans, 0);
    assert(cfg.copy.skip(1).len() == 0);
    assert(spec_copies(m0, cfg.copy.skip(1), replace, home, ans, a0) == (
        Seq::<Outcome>::empty(),
        m0,
        a0,
    ));
    assert(oc =~= seq![o0]);
    assert(spec_cmds(cfg.commands, evs, 0, false) == Seq::<Outcome>::empty());
    let (o, m2) = spec_run(m, cfg, replace, false, home, ans, evs);
    assert(o =~= seq![Outcome::Created]);
}

/// Copy semantics, first part: with the source a directory and the
/// destination absent, one copy item mirrors the whole source subtree at
/// the destination and reports `Created`.
pub proof fn lemma_copy_creates_mirror(
    m: Map<Seq<char>, EntryV>,
    s: Seq<char>,
    d: Seq<char>,
    replace: bool,
    ans: Seq<bool>,
    ai: int,
)
    requires
        m.dom().contains(s),
        m[s] is Dir,
        !m.dom().contains(d),
    ensures
        ({
            let (o, m2, ai2) = spec_copy_step(m, s, d, replace, ans, ai);
            o == Outcome::Created && ai2 == ai && m2 == m.union_prefer_right(mirror(m, s, d))
        }),
{
}

/// Copy semantics, second part: with the destination already present as a
/// directory, the replace policy removes the destination subtree before
/// copying — nothing merges: every entry under the destination afterwards
/// comes from the mirrored source.
pub proof fn lemma_copy_replace_removes_first(
    m: Map<Seq<char>, EntryV>,
    s: Seq<char>,
    d: Seq<char>,
    ans: Seq<bool>,
    ai: int,
)
    requires
        m.dom().contains(s),
        m[s] is Dir,
        m.dom().contains(d),
        m[d] is Dir,
        !in_subtree(d, s),
    ensures
        ({
            let (o, m2, ai2) = spec_copy_step(m, s, d, true, ans, ai);
            let m1 = subtree_removed(m, d);
            o == Outcome::Replaced && ai2 == ai && m2 == spec_do_copy(m1, s, d) && (forall|
                k: Seq<char>,
            |
                strictly_under(d, k) && #[trigger] m2.dom().contains(k) ==> mirror(
                    m1,
                    s,
                    d,
                ).dom().contains(k))
        }),
{
    let m1 = spec_remove_all(m, d);
    assert(m1 == subtree_removed(m, d));
    assert(m1.dom().contains(s));
    assert(m1[s] is Dir);
    let (o, m2, ai2) = spec_copy_step(m, s, d, true, ans, ai);
    assert(m2 == m1.union_prefer_right(mirror(m1, s, d)));
    assert forall|k: Seq<char>|
        strictly_under(d, k) && #[trigger] m2.dom().contains(k) implies mirror(
        m1,
        s,
        d,
    ).dom().contains(k) by {
        if !mirror(m1, s, d).dom().contains(k) {
            assert(m1.dom().contains(k));
            assert(in_subtree(d, k));
        }
    }
}

/// What the directories stage does: one outcome per item; the map only
/// extends, with directories alone added; and when every item was created
/// or already satisfied, every declared path with a nonempty expansion is
/// a directory afterwards.
pub proof fn lemma_dirs_stage_facts(m: Map<Seq<char>, EntryV>, ds: Seq<Seq<char>>, home: Seq<char>)
    ensures
        ({
            let (o, mo) = spec_dirs(m, ds, home);
            o.len() == ds.len() && m_extends(mo, m) && (forall|k: Seq<char>|
                #[trigger] mo.dom().contains(k) && !m.dom().contains(k) ==> mo[k] is Dir) && ((
            forall|i: int|
                0 <= i < o.len() ==> o[i] == Outcome::Created || o[i]
                    == Outcome::SkippedAlreadySatisfied) && (forall|i: int|
                0 <= i < ds.len() ==> spec_expand_user(#[trigger] ds[i], home).len() > 0)
                ==> forall|i: int|
                0 <= i < ds.len() ==> spec_is_dir(mo, spec_expand_user(#[trigger] ds[i], home)))
        }),
    decreases ds.len(),
{
    let (o, mo) = spec_dirs(m, ds, home);
    if ds.len() == 0 {
    } else {
        let p0 = spec_expand_user(ds[0], home);
        lemma_dir_step_facts(m, p0);
        let (o0, m1) = spec_dir_step(m, p0);
        lemma_dirs_stage_facts(m1, ds.skip(1), home);
        let (orest, mrest) = spec_dirs(m1, ds.skip(1), home);
        assert(o == seq![o0] + orest && mo == mrest);
        assert(m_extends(mo, m));
        assert forall|k: Seq<char>| #[trigger]
            mo.dom().contains(k) && !m.dom().contains(k) implies mo[k] is Dir by {
            if m1.dom().contains(k) {
                assert(mo[k] == m1[k]);
            }
        }
        if (forall|i: int|
            0 <= i < o.len() ==> o[i] == Outcome::Created || o[i]
                == Outcome::SkippedAlreadySatisfied) && (forall|i: int|
            0 <= i < ds.len() ==> spec_expand_user(#[trigger] ds[i], home).len() > 0) {
            assert(o[0] == o0);
            assert forall|i: int| 0 <= i < orest.len() implies orest[i] == Outcome::Created
                || orest[i] == Outcome::SkippedAlreadySatisfied by {
                assert(o[i + 1] == orest[i]);
            }
            assert forall|i: int|
                0 <= i < ds.skip(1).len() implies spec_expand_user(
                #[trigger] ds.skip(1)[i],
                home,
            ).len() > 0 by {
                assert(ds.skip(1)[i] == ds[i + 1]);
            }
            assert forall|i: int| 0 <= i < ds.len() implies spec_is_dir(
                mo,
                spec_expand_user(#[trigger] ds[i], home),
            ) by {
                if i == 0 {
                    assert(spec_is_dir(m1, p0));
                    if !is_root_path(p0) {
                        assert(mo[p0] == m1[p0]);
                    }
                } else {
                    assert(ds.skip(1)[i - 1] == ds[i]);
                    assert(spec_is_dir(mo, spec_expand_user(ds.skip(1)[i - 1], home)));
                }
            }
        }
    }
}

/// What the files stage does when every item reports `Created`: the map
/// only extends, and every declared path holds an empty file with its
/// parent chain of directories in place; and no file item ever reports
/// already satisfied.
pub proof fn lemma_files_stage_facts(
    m: Map<Seq<char>, EntryV>,
    fsx: Seq<Seq<char>>,
    replace: bool,
    home: Seq<char>,
    ans: Seq<bool>,
    ai: int,
)
    ensures
        ({
            let (o, mo, ao) = spec_files(m, fsx, replace, home, ans, ai);
            o.len() == fsx.len() && (forall|i: int|
                0 <= i < o.len() ==> o[i] != Outcome::SkippedAlreadySatisfied) && ((forall|i: int|
                0 <= i < o.len() ==> o[i] == Outcome::Created) ==> m_extends(mo, m) && (forall|
                i: int,
            |
                0 <= i < fsx.len() ==> {
                    let p = spec_expand_user(#[trigger] fsx[i], home);
                    mo.dom().contains(p) && mo[p] == (EntryV::File { content: 0 })
                        && chain_is_dirs(mo, p) && p.len() > 0 && !is_root_path(p)
                }))
        }),
    decreases fsx.len(),
{
    let (o, mo, ao) = spec_files(m, fsx, replace, home, ans, ai);
    if fsx.len() == 0 {
    } else {
        let p0 = spec_expand_user(fsx[0], home);
        lemma_file_step_created_facts(m, p0, replace, ans, ai);
        let (o0, m1, a1) = spec_file_step(m, p0, replace, ans, ai);
        lemma_files_stage_facts(m1, fsx.skip(1), replace, home, ans, a1);
        let (orest, mrest, arest) = spec_files(m1, fsx.skip(1), replace, home, ans, a1);
        assert(o == seq![o0] + orest && mo == mrest && ao == arest);
        assert forall|i: int| 0 <= i < o.len() implies o[i]
            != Outcome::SkippedAlreadySatisfied by {
            if i == 0 {
                assert(o[0] == o0);
            } else {
                assert(o[i] == orest[i - 1]);
            }
        }
        if forall|i: int| 0 <= i < o.len() ==> o[i] == Outcome::Created {
            assert(o[0] == o0);
            assert forall|i: int| 0 <= i < orest.len() implies orest[i] == Outcome::Created by {
                assert(o[i + 1] == orest[i]);
            }
            assert(m_extends(mo, m));
            assert forall|i: int| 0 <= i < fsx.len() implies {
                let p = spec_expand_user(#[trigger] fsx[i], home);
                mo.dom().contains(p) && mo[p] == (EntryV::File { content: 0 }) && chain_is_dirs(
                    mo,
                    p,
                ) && p.len() > 0 && !is_root_path(p)
            } by {
                if i == 0 {
                    assert(mo.dom().contains(p0) && mo[p0] == m1[p0]);
                    assert forall|t: int|
                        1 <= t < p0.len() && p0[t] == '/' && !is_root_path(
                            #[trigger] p0.take(t),
                        ) implies mo.dom().contains(p0.take(t)) && mo[p0.take(t)] is Dir by {
                        assert(m1.dom().contains(p0.take(t)) && m1[p0.take(t)] is Dir);
                        assert(mo[p0.take(t)] == m1[p0.take(t)]);
                    }
                } else {
                    assert(fsx.skip(1)[i - 1] == fsx[i]);
                }
            }
        }
    }
}

/// What the links stage does when every item was created or already
/// satisfied: the map only extends, and every declared link path holds a
/// link to its expanded target, which exists.
pub proof fn lemma_links_stage_facts(
    m: Map<Seq<char>, EntryV>,
    ls: Seq<(Seq<char>, Seq<char>)>,
    replace: bool,
    home: Seq<char>,
    ans: Seq<bool>,
    ai: int,
)
    ensures
        ({
            let (o, mo, ao) = spec_links(m, ls, replace, home, ans, ai);
            o.len() == ls.len() && ((forall|i: int|
                0 <= i < o.len() ==> o[i] == Outcome::Created || o[i]
                    == Outcome::SkippedAlreadySatisfied) ==> m_extends(mo, m) && (forall|i: int|
                0 <= i < ls.len() ==> {
                    let t = spec_expand_user((#[trigger] ls[i]).0, home);
                    let l = spec_expand_user(ls[i].1, home);
                    mo.dom().contains(l) && mo[l] == (EntryV::Link { target: t })
                        && mo.dom().contains(t)
                }))
        }),
    decreases ls.len(),
{
    let (o, mo, ao) = spec_links(m, ls, replace, home, ans, ai);
    if ls.len() == 0 {
    } else {
        let t0 = spec_expand_user(ls[0].0, home);
        let l0 = spec_expand_user(ls[0].1, home);
        lemma_link_step_ok_facts(m, t0, l0, replace, ans, ai);
        let (o0, m1, a1) = spec_link_step(m, t0, l0, replace, ans, ai);
        lemma_links_stage_facts(m1, ls.skip(1), replace, home, ans, a1);
        let (orest, mrest, arest) = spec_links(m1, ls.skip(1), replace, home, ans, a1);
        assert(o == seq![o0] + orest && mo == mrest && ao == arest);
        if forall|i: int|
            0 <= i < o.len() ==> o[i] == Outcome::Created || o[i]
                == Outcome::SkippedAlreadySatisfied {
            assert(o[0] == o0);
            assert forall|i: int| 0 <= i < orest.len() implies orest[i] == Outcome::Created
                || orest[i] == Outcome::SkippedAlreadySatisfied by {
                assert(o[i + 1] == orest[i]);
            }
            assert(m_extends(mo, m));
            assert forall|i: int| 0 <= i < ls.len() implies {
                let t = spec_expand_user((#[trigger] ls[i]).0, home);
                let l = spec_expand_user(ls[i].1, home);
                mo.dom().contains(l) && mo[l] == (EntryV::Link { target: t }) && mo.dom().contains(
                    t,
                )
            } by {
                if i == 0 {
                    assert(mo[l0] == m1[l0]);
                } else {
                    assert(ls.skip(1)[i - 1] == ls[i]);
                }
            }
        }
    }
}

/// Re-running the directories stage over a state where every declared
/// path is already a directory changes nothing and reports every item as
/// already satisfied.
pub proof fn lemma_dirs_stage_reapply(
    m: Map<Seq<char>, EntryV>,
    ds: Seq<Seq<char>>,
    home: Seq<char>,
)
    requires
        forall|i: int|
            0 <= i < ds.len() ==> spec_is_dir(m, spec_expand_user(#[trigger] ds[i], home)),
    ensures
        ({
            let (o, mo) = spec_dirs(m, ds, home);
            mo == m && o.len() == ds.len() && forall|i: int|
                0 <= i < o.len() ==> o[i] == Outcome::SkippedAlreadySatisfied
        }),
    decreases ds.len(),
{
    let (o, mo) = spec_dirs(m, ds, home);
    if ds.len() == 0 {
    } else {
        assert(spec_is_dir(m, spec_expand_user(ds[0], home)));
        assert forall|i: int| 0 <= i < ds.skip(1).len() implies spec_is_dir(
            m,
            spec_expand_user(#[trigger] ds.skip(1)[i], home),
        ) by {
            assert(ds.skip(1)[i] == ds[i + 1]);
        }
        lemma_dirs_stage_reapply(m, ds.skip(1), home);
        let (orest, mrest) = spec_dirs(m, ds.skip(1), home);
        assert(o == seq![Outcome::SkippedAlreadySatisfied] + orest);
        assert forall|i: int| 0 <= i < o.len() implies o[i]
            == Outcome::SkippedAlreadySatisfied by {
            if i > 0 {
                assert(o[i] == orest[i - 1]);
            }
        }
    }
}

/// One file item re-applied, without the replace policy, to a state where
/// its path already holds the empty file it declares: whatever the
/// operator answers — or if no answer is left — the state is unchanged.
proof fn lemma_file_step_reapply(m: Map<Seq<char>, EntryV>, p: Seq<char>, ans: Seq<bool>, ai: int)
    requires
        m.dom().contains(p),
        m[p] == (EntryV::File { content: 0 }),
        chain_is_dirs(m, p),
        p.len() > 0,
        !is_root_path(p),
    ensures
        ({
            let (o, m2, a2) = spec_file_step(m, p, false, ans, ai);
            m2 == m && (o == Outcome::Replaced || o == Outcome::SkippedByUser || o
                == Outcome::Failed(ErrKind::EndOfInput)) && ai <= a2 <= ai + 1
        }),
{
    let m1 = spec_remove_all(m, p);
    assert(m1 == m.remove(p));
    assert(chain_is_dirs_from(m1, p, 1)) by {
        assert forall|t: int|
            1 <= t < p.len() && p[t] == '/' && !is_root_path(
                #[trigger] p.take(t),
            ) implies m1.dom().contains(p.take(t)) && m1[p.take(t)] is Dir by {
            assert(p.take(t).len() < p.len());
            assert(p.take(t) != p);
        }
    }
    lemma_mkdirp_from_noop(m1, p, 1);
    assert(m1.insert(p, EntryV::File { content: 0 }) =~= m);
}

/// Re-running the files stage, without the replace policy, over a state
/// where every declared path already holds its empty file with its parent
/// chain in place: the state is unchanged whatever the answers.
pub proof fn lemma_files_stage_reapply(
    m: Map<Seq<char>, EntryV>,
    fsx: Seq<Seq<char>>,
    home: Seq<char>,
    ans: Seq<bool>,
    ai: int,
)
    requires
        forall|i: int|
            0 <= i < fsx.len() ==> {
                let p = spec_expand_user(#[trigger] fsx[i], home);
                m.dom().contains(p) && m[p] == (EntryV::File { content: 0 }) && chain_is_dirs(m, p)
                    && p.len() > 0 && !is_root_path(p)
            },
    ensures
        ({
            let (o, mo, ao) = spec_files(m, fsx, false, home, ans, ai);
            mo == m && o.len() == fsx.len() && forall|i: int|
                0 <= i < o.len() ==> o[i] == Outcome::Replaced || o[i] == Outcome::SkippedByUser
                    || o[i] == Outcome::Failed(ErrKind::EndOfInput)
        }),
    decreases fsx.len(),
{
    let (o, mo, ao) = spec_files(m, fsx, false, home, ans, ai);
    if fsx.len() == 0 {
    } else {
        let p0 = spec_expand_user(fsx[0], home);
        assert(m.dom().contains(p0) && m[p0] == (EntryV::File { content: 0 }) && chain_is_dirs(
            m,
            p0,
        ) && p0.len() > 0 && !is_root_path(p0));
        lemma_file_step_reapply(m, p0, ans, ai);
        let (o0, m1, a1) = spec_file_step(m, p0, false, ans, ai);
        assert(m1 == m);
        assert forall|i: int| 0 <= i < fsx.skip(1).len() implies {
            let p = spec_expand_user(#[trigger] fsx.skip(1)[i], home);
            m.dom().contains(p) && m[p] == (EntryV::File { content: 0 }) && chain_is_dirs(m, p)
                && p.len() > 0 && !is_root_path(p)
        } by {
            assert(fsx.skip(1)[i] == fsx[i + 1]);
        }
        lemma_files_stage_reapply(m, fsx.skip(1), home, ans, a1);
        let (orest, mrest, arest) = spec_files(m, fsx.skip(1), false, home, ans, a1);
        assert(o == seq![o0] + orest && mo == mrest);
        assert forall|i: int| 0 <= i < o.len() implies o[i] == Outcome::Replaced || o[i]
            == Outcome::SkippedByUser || o[i] == Outcome::Failed(ErrKind::EndOfInput) by {
            if i == 0 {
                assert(o[0] == o0);
            } else {
                assert(o[i] == orest[i - 1]);
            }
        }
    }
}

/// Re-running the links stage over a state where every declared link is
/// already in place and every target exists changes nothing and reports
/// every item as already satisfied.
pub proof fn lemma_links_stage_reapply(
    m: Map<Seq<char>, EntryV>,
    ls: Seq<(Seq<char>, Seq<char>)>,
    replace: bool,
    home: Seq<char>,
    ans: Seq<bool>,
    ai: int,
)
    requires
        forall|i: int|
            0 <= i < ls.len() ==> {
                let t = spec_expand_user((#[trigger] ls[i]).0, home);
                let l = spec_expand_user(ls[i].1, home);
                m.dom().contains(l) && m[l] == (EntryV::Link { target: t }) && m.dom().contains(t)
            },
    ensures
        ({
            let (o, mo, ao) = spec_links(m, ls, replace, home, ans, ai);
            mo == m && ao == ai && o.len() == ls.len() && forall|i: int|
                0 <= i < o.len() ==> o[i] == Outcome::SkippedAlreadySatisfied
        }),
    decreases ls.len(),
{
    let (o, mo, ao) = spec_links(m, ls, replace, home, ans, ai);
    if ls.len() == 0 {
    } else {
        let t0 = spec_expand_user(ls[0].0, home);
        let l0 = spec_expand_user(ls[0].1, home);
        assert(m.dom().contains(l0) && m[l0] == (EntryV::Link { target: t0 })
            && m.dom().contains(t0));
        assert forall|i: int| 0 <= i < ls.skip(1).len() implies {
            let t = spec_expand_user((#[trigger] ls.skip(1)[i]).0, home);
            let l = spec_expand_user(ls.skip(1)[i].1, home);
            m.dom().contains(l) && m[l] == (EntryV::Link { target: t }) && m.dom().contains(t)
        } by {
            assert(ls.skip(1)[i] == ls[i + 1]);
        }
        lemma_links_stage_reapply(m, ls.skip(1), replace, home, ans, ai);
        let (orest, mrest, arest) = spec_links(m, ls.skip(1), replace, home, ans, ai);
        assert(o == seq![Outcome::SkippedAlreadySatisfied] + orest);
        assert forall|i: int| 0 <= i < o.len() implies o[i]
            == Outcome::SkippedAlreadySatisfied by {
            if i > 0 {
                assert(o[i] == orest[i - 1]);
            }
        }
    }
}

/// The copies stage attempts every declared copy, one outcome each.
pub proof fn lemma_copies_stage_len(
    m: Map<Seq<char>, EntryV>,
    cs: Seq<(Seq<char>, Seq<char>)>,
    replace: bool,
    home: Seq<char>,
    ans: Seq<bool>,
    ai: int,
)
    ensures
        spec_copies(m, cs, replace, home, ans, ai).0.len() == cs.len(),
    decreases cs.len(),
{
    if cs.len() == 0 {
    } else {
        let (o0, m1, a1) = spec_copy_step(
            m,
            spec_expand_user(cs[0].0, home),
            spec_expand_user(cs[0].1, home),
            replace,
            ans,
            ai,
        );
        lemma_copies_stage_len(m1, cs.skip(1), replace, home, ans, a1);
    }
}

/// The commands stage attempts at most one outcome per command.
proof fn lemma_cmds_stage_len(cmds: Seq<Seq<Seq<char>>>, evs: Seq<CmdResult>, ci: int, dry: bool)
    ensures
        spec_cmds(cmds, evs, ci, dry).len() <= cmds.len(),
    decreases cmds.len(),
{
    if cmds.len() == 0 {
    } else {
        let (o, ci2, halt) = spec_cmd_step(cmds[0], evs, ci, dry);
        if !halt {
            lemma_cmds_stage_len(cmds.skip(1), evs, ci2, dry);
        }
    }
}

/// Failure propagation: a failed directory, file, link or copy item is
/// local — every item of those four stages is attempted and reports an
/// outcome, whatever became of the items before it. Only the commands
/// stage can end early, so a run reports at least one outcome per
/// non-command item and at most one more per command.
pub proof fn lemma_failures_are_local(
    m: Map<Seq<char>, EntryV>,
    cfg: ConfigV,
    replace: bool,
    dry: bool,
    home: Seq<char>,
    ans: Seq<bool>,
    evs: Seq<CmdResult>,
)
    ensures
        ({
            let (o, m2) = spec_run(m, cfg, replace, dry, home, ans, evs);
            let fixed = cfg.directories.len() + cfg.files.len() + cfg.links.len()
                + cfg.copy.len();
            fixed <= o.len() <= fixed + cfg.commands.len()
        }),
{
    let (od, md) = spec_dirs(m, cfg.directories, home);
    let (of, mf, af) = spec_files(md, cfg.files, replace, home, ans, 0);
    let (ol, ml, al) = spec_links(mf, cfg.links, replace, home, ans, af);
    lemma_dirs_stage_facts(m, cfg.directories, home);
    lemma_files_stage_facts(md, cfg.files, replace, home, ans, 0);
    lemma_links_stage_facts(mf, cfg.links, replace, home, ans, af);
    lemma_copies_stage_len(ml, cfg.copy, replace, home, ans, al);
    lemma_cmds_stage_len(cfg.commands, evs, 0, dry);
}

/// Idempotence: a run over directory, file and link declarations whose
/// every item was created or found already satisfied can be applied again
/// — without the replace policy, with any answers — and the second run
/// yields the identical final state, reporting every directory and link
/// item as already satisfied. A file item, whose declared path its own
/// first run filled, is reported as a conflict the second time — replaced,
/// declined, or failed for want of an answer — but the state still does
/// not change. Directory paths must not expand to the empty string, which
/// names nothing and can be "created" without becoming a directory.
pub proof fn lemma_idempotence(
    m: Map<Seq<char>, EntryV>,
    cfg: ConfigV,
    home: Seq<char>,
    ans1: Seq<bool>,
    ans2: Seq<bool>,
    evs1: Seq<CmdResult>,
    evs2: Seq<CmdResult>,
)
    requires
        cfg.copy.len() == 0,
        cfg.commands.len() == 0,
        forall|i: int|
            0 <= i < cfg.directories.len() ==> spec_expand_user(
                #[trigger] cfg.directories[i],
                home,
            ).len() > 0,
        ({
            let (o1, m1) = spec_run(m, cfg, false, false, home, ans1, evs1);
            forall|i: int|
                0 <= i < o1.len() ==> o1[i] == Outcome::Created || o1[i]
                    == Outcome::SkippedAlreadySatisfied
        }),
    ensures
        ({
            let (o1, m1) = spec_run(m, cfg, false, false, home, ans1, evs1);
            let (o2, m2) = spec_run(m1, cfg, false, false, home, ans2, evs2);
            m2 == m1 && o2.len() == o1.len() && o1.len() == cfg.directories.len()
                + cfg.files.len() + cfg.links.len() && (forall|i: int|
                0 <= i < cfg.directories.len() ==> o2[i] == Outcome::SkippedAlreadySatisfied) && (
            forall|i: int|
                cfg.directories.len() <= i < cfg.directories.len() + cfg.files.len() ==> o2[i]
                    == Outcome::Replaced || o2[i] == Outcome::SkippedByUser || o2[i]
                    == Outcome::Failed(ErrKind::EndOfInput)) && (forall|i: int|
                cfg.directories.len() + cfg.files.len() <= i < o2.len() ==> o2[i]
                    == Outcome::SkippedAlreadySatisfied)
        }),
{
    let nd = cfg.directories.len() as int;
    let nf = cfg.files.len() as int;
    let nl = cfg.links.len() as int;

    let (od, md) = spec_dirs(m, cfg.directories, home);
    let (of, mf, af) = spec_files(md, cfg.files, false, home, ans1, 0);
    let (ol, ml, al) = spec_links(mf, cfg.links, false, home, ans1, af);
    let (oc, mc, ac) = spec_copies(ml, cfg.copy, false, home, ans1, al);
    assert(oc == Seq::<Outcome>::empty() && mc == ml);
    let ocm = spec_cmds(cfg.commands, evs1, 0, false);
    assert(ocm == Seq::<Outcome>::empty());
    let (o1, m1) = spec_run(m, cfg, false, false, home, ans1, evs1);
    assert(m1 == ml);
    assert(o1 == od + of + ol + oc + ocm);

    lemma_dirs_stage_facts(m, cfg.directories, home);
    lemma_files_stage_facts(md, cfg.files, false, home, ans1, 0);
    lemma_links_stage_facts(mf, cfg.links, false, home, ans1, af);
    assert(od.len() == nd && of.len() == nf && ol.len() == nl);
    assert(o1.len() == nd + nf + nl);

    assert forall|i: int| 0 <= i < nd implies od[i] == Outcome::Created || od[i]
        == Outcome::SkippedAlreadySatisfied by {
        assert(o1[i] == od[i]);
    }
    assert forall|i: int| 0 <= i < nf implies of[i] == Outcome::Created by {
        assert(o1[nd + i] == of[i]);
    }
    assert forall|i: int| 0 <= i < nl implies ol[i] == Outcome::Created || ol[i]
        == Outcome::SkippedAlreadySatisfied by {
        assert(o1[nd + nf + i] == ol[i]);
    }

    // The facts each stage of the first run leaves behind, carried to the
    // final state along the extension of the map by the later stages.
    assert(m_extends(mf, md));
    assert(m_extends(ml, mf));
    assert forall|i: int| 0 <= i < nd implies spec_is_dir(
        m1,
        spec_expand_user(#[trigger] cfg.directories[i], home),
    ) by {
        let p = spec_expand_user(cfg.directories[i], home);
        assert(spec_is_dir(md, p));
        if !is_root_path(p) {
            assert(mf[p] == md[p]);
            assert(ml[p] == mf[p]);
        }
    }
    assert forall|i: int| 0 <= i < nf implies {
        let p = spec_expand_user(#[trigger] cfg.files[i], home);
        m1.dom().contains(p) && m1[p] == (EntryV::File { content: 0 }) && chain_is_dirs(m1, p)
            && p.len() > 0 && !is_root_path(p)
    } by {
        let p = spec_expand_user(cfg.files[i], home);
        assert(mf.dom().contains(p) && mf[p] == (EntryV::File { content: 0 }) && chain_is_dirs(
            mf,
            p,
        ));
        assert(ml[p] == mf[p]);
        assert forall|t: int|
            1 <= t < p.len() && p[t] == '/' && !is_root_path(
                #[trigger] p.take(t),
            ) implies m1.dom().contains(p.take(t)) && m1[p.take(t)] is Dir by {
            assert(mf.dom().contains(p.take(t)) && mf[p.take(t)] is Dir);
            assert(ml[p.take(t)] == mf[p.take(t)]);
        }
    }
    assert forall|i: int| 0 <= i < nl implies {
        let t = spec_expand_user((#[trigger] cfg.links[i]).0, home);
        let l = spec_expand_user(cfg.links[i].1, home);
        m1.dom().contains(l) && m1[l] == (EntryV::Link { target: t }) && m1.dom().contains(t)
    } by {}

    // The second run: each stage finds its declarations satisfied.
    lemma_dirs_stage_reapply(m1, cfg.directories, home);
    let (od2, md2) = spec_dirs(m1, cfg.directories, home);
    assert(md2 == m1);
    lemma_files_stage_reapply(m1, cfg.files, home, ans2, 0);
    let (of2, mf2, af2) = spec_files(m1, cfg.files, false, home, ans2, 0);
    assert(mf2 == m1);
    lemma_links_stage_reapply(m1, cfg.links, false, home, ans2, af2);
    let (ol2, ml2, al2) = spec_links(m1, cfg.links, false, home, ans2, af2);
    assert(ml2 == m1);
    let (oc2, mc2, ac2) = spec_copies(m1, cfg.copy, false, home, ans2, al2);
    assert(oc2 == Seq::<Outcome>::empty() && mc2 == m1);
    let ocm2 = spec_cmds(cfg.commands, evs2, 0, false);
    assert(ocm2 == Seq::<Outcome>::empty());
    let (o2, m2) = spec_run(m1, cfg, false, false, home, ans2, evs2);
    assert(m2 == m1);
    assert(o2 == od2 + of2 + ol2 + oc2 + ocm2);
    assert(o2.len() == nd + nf + nl);

    assert forall|i: int| 0 <= i < nd implies o2[i] == Outcome::SkippedAlreadySatisfied by {
        assert(o2[i] == od2[i]);
    }
    assert forall|i: int| nd <= i < nd + nf implies o2[i] == Outcome::Replaced || o2[i]
        == Outcome::SkippedByUser || o2[i] == Outcome::Failed(ErrKind::EndOfInput) by {
        assert(o2[i] == of2[i - nd]);
    }
    assert forall|i: int| nd + nf <= i < o2.len() implies o2[i]
        == Outcome::SkippedAlreadySatisfied by {
        assert(o2[i] == ol2[i - nd - nf]);
    }
}

/// Command sequencing: the commands stage attempts commands strictly in
/// order, and past the first spawn or wait failure no further command is
/// attempted: the outcomes end at the failed command.
pub proof fn lemma_command_sequencing(
    cmds: Seq<Seq<Seq<char>>>,
    evs: Seq<CmdResult>,
    ci: int,
    i: int,
)
    requires
        0 <= i < cmds.len(),
        forall|t: int| 0 <= t < cmds.len() ==> (#[trigger] cmds[t]).len() > 0,
        forall|t: int| 0 <= t < evs.len() ==> 0 <= t < i + ci ==> evs[t] == CmdResult::Spawned,
        0 <= ci,
        ci + i < evs.len(),
        forall|t: int| ci <= t < ci + i ==> #[trigger] evs[t] == CmdResult::Spawned,
        evs[ci + i] == CmdResult::SpawnFailed,
    ensures
        spec_cmds(cmds, evs, ci, false) =~= Seq::new(
            (i + 1) as nat,
            |t: int|
                if t < i {
                    Outcome::Created
                } else {
                    Outcome::Failed(ErrKind::SpawnError)
                },
        ),
    decreases cmds.len(),
{
    if i == 0 {
        assert(spec_cmd_step(cmds[0], evs, ci, false) == (
            Outcome::Failed(ErrKind::SpawnError),
            ci + 1,
            true,
        ));
    } else {
        assert(spec_cmd_step(cmds[0], evs, ci, false) == (Outcome::Created, ci + 1, false));
        lemma_command_sequencing(cmds.skip(1), evs, ci + 1, i - 1);
        assert(spec_cmds(cmds, evs, ci, false) == seq![Outcome::Created] + spec_cmds(
            cmds.skip(1),
            evs,
            ci + 1,
            false,
        ));
    }
}

/// Dry runs match live runs: the commands stage of a dry run reports what
/// a live run would when every spawn succeeds.
proof fn lemma_cmds_dry_matches(
    cmds: Seq<Seq<Seq<char>>>,
    evs: Seq<CmdResult>,
    ci: int,
    evs2: Seq<CmdResult>,
    cj: int,
)
    requires
        0 <= ci,
        evs.len() - ci >= cmds.len(),
        forall|t: int| ci <= t < evs.len() ==> #[trigger] evs[t] == CmdResult::Spawned,
    ensures
        spec_cmds(cmds, evs2, cj, true) =~= spec_cmds(cmds, evs, ci, false),
    decreases cmds.len(),
{
    if cmds.len() == 0 {
    } else if cmds[0].len() == 0 {
        lemma_cmds_dry_matches(cmds.skip(1), evs, ci, evs2, cj);
    } else {
        assert(evs[ci] == CmdResult::Spawned);
        lemma_cmds_dry_matches(cmds.skip(1), evs, ci + 1, evs2, cj);
    }
}

/// Dry-run fidelity: a dry run reports exactly the outcomes a live run
/// would produce from the same starting state and the same operator
/// answers, when every command of the live run spawns and completes; and
/// the simulated final state is the live run's final state. That the dry
/// run itself changes nothing is guaranteed by `dry_apply` taking the
/// filesystem model by shared reference.
pub proof fn lemma_dry_run_matches_apply(
    m: Map<Seq<char>, EntryV>,
    cfg: ConfigV,
    replace: bool,
    home: Seq<char>,
    ans: Seq<bool>,
    evs: Seq<CmdResult>,
    evs2: Seq<CmdResult>,
)
    requires
        evs.len() >= cfg.commands.len(),
        forall|t: int| 0 <= t < evs.len() ==> #[trigger] evs[t] == CmdResult::Spawned,
    ensures
        spec_run(m, cfg, replace, true, home, ans, evs2).0 =~= spec_run(
            m,
            cfg,
            replace,
            false,
            home,
            ans,
            evs,
        ).0,
        spec_run(m, cfg, replace, true, home, ans, evs2).1 == spec_run(
            m,
            cfg,
            replace,
            false,
            home,
            ans,
            evs,
        ).1,
{
    lemma_cmds_dry_matches(cfg.commands, evs, 0, evs2, 0);
    let (o1, m1) = spec_dirs(m, cfg.directories, home);
    let (o2, m2, ai2) = spec_files(m1, cfg.files, replace, home, ans, 0);
    let (o3, m3, ai3) = spec_links(m2, cfg.links, replace, home, ans, ai2);
    let (o4, m4, ai4) = spec_copies(m3, cfg.copy, replace, home, ans, ai3);
    assert(spec_run(m, cfg, replace, true, home, ans, evs2).0 =~= o1 + o2 + o3 + o4 + spec_cmds(
        cfg.commands,
        evs2,
        0,
        true,
    ));
}

} // verus!
