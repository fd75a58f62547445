//! The reconciliation engine: given a desired-state document, decide for
//! each declared item whether the filesystem model already satisfies it,
//! resolve conflicts with existing entries, and apply the five stages in
//! their fixed order: directories, files, links, copies, commands.
//!
//! The engine works on the filesystem model of [`crate::fs_model`]. What
//! stands outside the model — the operator's answers to conflict prompts
//! and the fate of each spawned command — enters as explicit inputs: a
//! sequence of answers consumed one per prompt, and one command result per
//! spawn attempted. A dry run simulates the whole run on a copy of the
//! model and reports what a live run would report, assuming every spawn
//! would succeed.

use crate::config::Config;
use crate::config::ConfigV;
use crate::config::eq_word_lower;
use crate::config::matches_word;
use crate::fs_model::Entry;
use crate::fs_model::EntryV;
use crate::fs_model::Fs;
use crate::fs_model::spec_do_copy;
use crate::fs_model::spec_remove_all;
use crate::paths::expand_user;
use crate::paths::spec_expand_user;
use crate::paths::str_eq;
use vstd::prelude::*;
use vstd::string::*;

verus! {

/// Why an item failed: a missing source or target, a filesystem operation
/// that cannot succeed, a process that could not be spawned or awaited, a
/// command with no executable, or an input source that ran dry.
#[derive(Clone, Copy, Debug, PartialEq, Eq, Structural)]
pub enum ErrKind {
    NotFound,
    IOError,
    SpawnError,
    WaitError,
    EmptyCommand,
    EndOfInput,
}

/// What became of one declared item.
#[derive(Clone, Copy, Debug, PartialEq, Eq, Structural)]
pub enum Outcome {
    Created,
    SkippedAlreadySatisfied,
    SkippedByUser,
    Replaced,
    Failed(ErrKind),
}

/// The fate of one spawned command: it ran to completion, it could not be
/// spawned, or awaiting it failed.
#[derive(Clone, Copy, Debug, PartialEq, Eq, Structural)]
pub enum CmdResult {
    Spawned,
    SpawnFailed,
    WaitFailed,
}

/// How a conflict was resolved: proceed with replacement, leave the entry
/// alone, or no answer was to be had.
#[derive(Clone, Copy, Debug, PartialEq, Eq, Structural)]
pub enum ConflictChoice {
    Proceed,
    Declined,
    NoInput,
}

/// The path that is a bare `/`.
pub open spec fn is_root_path(p: Seq<char>) -> bool {
    p.len() == 1 && p[0] == '/'
}

/// How a conflict at an existing entry is resolved: the replace policy
/// proceeds without asking; otherwise the next operator answer decides and
/// is consumed; with no answer left, the conflict cannot be resolved.
pub open spec fn spec_resolve(replace: bool, ans: Seq<bool>, ai: int) -> (ConflictChoice, int) {
    if replace {
        (ConflictChoice::Proceed, ai)
    } else if 0 <= ai < ans.len() {
        (
            if ans[ai] {
                ConflictChoice::Proceed
            } else {
                ConflictChoice::Declined
            },
            ai + 1,
        )
    } else {
        (ConflictChoice::NoInput, ai)
    }
}

/// One step of directory-chain creation, considering the prefix of `p` of
/// length `j`: a prefix ending at a separator (or all of `p`, when the path
/// itself is wanted) must be a directory; a missing one is created, and any
/// other entry there stops the walk.
pub open spec fn spec_mkdirp_from(
    m: Map<Seq<char>, EntryV>,
    p: Seq<char>,
    j: int,
    include_self: bool,
) -> (bool, Map<Seq<char>, EntryV>)
    decreases p.len() + 1 - j,
{
    if j < 1 || j > p.len() {
        (true, m)
    } else {
        let boundary = (j == p.len() && include_self) || (j < p.len() && p[j] == '/');
        let k = p.take(j);
        if boundary && !is_root_path(k) {
            if !m.dom().contains(k) {
                spec_mkdirp_from(m.insert(k, EntryV::Dir), p, j + 1, include_self)
            } else if m[k] is Dir {
                spec_mkdirp_from(m, p, j + 1, include_self)
            } else {
                (false, m)
            }
        } else {
            spec_mkdirp_from(m, p, j + 1, include_self)
        }
    }
}

/// Directory-chain creation along `p`, as creating a directory with all
/// missing parents does: every prefix ending at a separator — and `p`
/// itself, when `include_self` holds — is made a directory if missing;
/// an entry of another kind at any of them fails the walk, leaving the
/// prefixes created so far.
pub open spec fn spec_mkdirp(m: Map<Seq<char>, EntryV>, p: Seq<char>, include_self: bool) -> (
    bool,
    Map<Seq<char>, EntryV>,
) {
    spec_mkdirp_from(m, p, 1, include_self)
}

/// Whether `p` is a directory in `m`; the root always is.
pub open spec fn spec_is_dir(m: Map<Seq<char>, EntryV>, p: Seq<char>) -> bool {
    is_root_path(p) || (m.dom().contains(p) && m[p] is Dir)
}

/// One directory item, at the already expanded path `p`: an existing
/// directory is already satisfied; otherwise the chain up to and including
/// `p` is created, and a blocked chain fails the item.
pub open spec fn spec_dir_step(m: Map<Seq<char>, EntryV>, p: Seq<char>) -> (Outcome, Map<
    Seq<char>,
    EntryV,
>) {
    if spec_is_dir(m, p) {
        (Outcome::SkippedAlreadySatisfied, m)
    } else {
        let (ok, m2) = spec_mkdirp(m, p, true);
        if ok {
            (Outcome::Created, m2)
        } else {
            (Outcome::Failed(ErrKind::IOError), m2)
        }
    }
}

/// One file item, at the already expanded path `p`: a path without a
/// parent cannot hold a file; any existing entry is a conflict, resolved
/// by the replace policy or the operator; proceeding removes the entry.
/// Creation ensures the parent chain and puts an empty file at `p`.
pub open spec fn spec_file_step(
    m: Map<Seq<char>, EntryV>,
    p: Seq<char>,
    replace: bool,
    ans: Seq<bool>,
    ai: int,
) -> (Outcome, Map<Seq<char>, EntryV>, int) {
    if p.len() == 0 || is_root_path(p) {
        (Outcome::Failed(ErrKind::IOError), m, ai)
    } else if m.dom().contains(p) {
        let (c, ai2) = spec_resolve(replace, ans, ai);
        match c {
            ConflictChoice::Proceed => {
                let m1 = spec_remove_all(m, p);
                let (ok, m2) = spec_mkdirp(m1, p, false);
                if ok {
                    (Outcome::Replaced, m2.insert(p, EntryV::File { content: 0 }), ai2)
                } else {
                    (Outcome::Failed(ErrKind::IOError), m2, ai2)
                }
            },
            ConflictChoice::Declined => (Outcome::SkippedByUser, m, ai2),
            ConflictChoice::NoInput => (Outcome::Failed(ErrKind::EndOfInput), m, ai2),
        }
    } else {
        let (ok, m2) = spec_mkdirp(m, p, false);
        if ok {
            (Outcome::Created, m2.insert(p, EntryV::File { content: 0 }), ai)
        } else {
            (Outcome::Failed(ErrKind::IOError), m2, ai)
        }
    }
}

/// One link item, with expanded target `t` and link path `l`: the target
/// must resolve (exist); a link at `l` already pointing at the resolved
/// target is already satisfied; any other entry at `l` is a conflict; and
/// creation places a link to the resolved target at `l`.
pub open spec fn spec_link_step(
    m: Map<Seq<char>, EntryV>,
    t: Seq<char>,
    l: Seq<char>,
    replace: bool,
    ans: Seq<bool>,
    ai: int,
) -> (Outcome, Map<Seq<char>, EntryV>, int) {
    if !m.dom().contains(t) {
        (Outcome::Failed(ErrKind::NotFound), m, ai)
    } else if m.dom().contains(l) && m[l] == (EntryV::Link { target: t }) {
        (Outcome::SkippedAlreadySatisfied, m, ai)
    } else if m.dom().contains(l) {
        let (c, ai2) = spec_resolve(replace, ans, ai);
        match c {
            ConflictChoice::Proceed => (
                Outcome::Replaced,
                spec_remove_all(m, l).insert(l, EntryV::Link { target: t }),
                ai2,
            ),
            ConflictChoice::Declined => (Outcome::SkippedByUser, m, ai2),
            ConflictChoice::NoInput => (Outcome::Failed(ErrKind::EndOfInput), m, ai2),
        }
    } else {
        (Outcome::Created, m.insert(l, EntryV::Link { target: t }), ai)
    }
}

/// One copy item, with expanded source `s` and destination `d`: the source
/// must resolve (exist); an existing destination is always a conflict —
/// the engine never compares contents — and proceeding removes it; then
/// the source entry, with its whole subtree for a directory, is copied.
pub open spec fn spec_copy_step(
    m: Map<Seq<char>, EntryV>,
    s: Seq<char>,
    d: Seq<char>,
    replace: bool,
    ans: Seq<bool>,
    ai: int,
) -> (Outcome, Map<Seq<char>, EntryV>, int) {
    if !m.dom().contains(s) {
        (Outcome::Failed(ErrKind::NotFound), m, ai)
    } else if m.dom().contains(d) {
        let (c, ai2) = spec_resolve(replace, ans, ai);
        match c {
            ConflictChoice::Proceed => (
                Outcome::Replaced,
                spec_do_copy(spec_remove_all(m, d), s, d),
                ai2,
            ),
            ConflictChoice::Declined => (Outcome::SkippedByUser, m, ai2),
            ConflictChoice::NoInput => (Outcome::Failed(ErrKind::EndOfInput), m, ai2),
        }
    } else {
        (Outcome::Created, spec_do_copy(m, s, d), ai)
    }
}

/// One command: an empty argument vector has nothing to spawn and fails
/// without stopping the run; a dry run reports the command as executed
/// without consuming a result; otherwise the command's result decides, and
/// a spawn or wait failure halts the remaining commands, as does running
/// out of results.
pub open spec fn spec_cmd_step(c: Seq<Seq<char>>, evs: Seq<CmdResult>, ci: int, dry: bool) -> (
    Outcome,
    int,
    bool,
) {
    if c.len() == 0 {
        (Outcome::Failed(ErrKind::EmptyCommand), ci, false)
    } else if dry {
        (Outcome::Created, ci, false)
    } else if 0 <= ci < evs.len() {
        match evs[ci] {
            CmdResult::Spawned => (Outcome::Created, ci + 1, false),
            CmdResult::SpawnFailed => (Outcome::Failed(ErrKind::SpawnError), ci + 1, true),
            CmdResult::WaitFailed => (Outcome::Failed(ErrKind::WaitError), ci + 1, true),
        }
    } else {
        (Outcome::Failed(ErrKind::EndOfInput), ci, true)
    }
}

/// The directories stage: each path expanded and ensured in order.
pub open spec fn spec_dirs(m: Map<Seq<char>, EntryV>, ds: Seq<Seq<char>>, home: Seq<char>) -> (
    Seq<Outcome>,
    Map<Seq<char>, EntryV>,
)
    decreases ds.len(),
{
    if ds.len() == 0 {
        (Seq::empty(), m)
    } else {
        let (o, m1) = spec_dir_step(m, spec_expand_user(ds[0], home));
        let (rest, m2) = spec_dirs(m1, ds.skip(1), home);
        (seq![o] + rest, m2)
    }
}

/// The files stage: each path expanded and ensured in order, threading the
/// operator's answers.
pub open spec fn spec_files(
    m: Map<Seq<char>, EntryV>,
    fsx: Seq<Seq<char>>,
    replace: bool,
    home: Seq<char>,
    ans: Seq<bool>,
    ai: int,
) -> (Seq<Outcome>, Map<Seq<char>, EntryV>, int)
    decreases fsx.len(),
{
    if fsx.len() == 0 {
        (Seq::empty(), m, ai)
    } else {
        let (o, m1, ai1) = spec_file_step(m, spec_expand_user(fsx[0], home), replace, ans, ai);
        let (rest, m2, ai2) = spec_files(m1, fsx.skip(1), replace, home, ans, ai1);
        (seq![o] + rest, m2, ai2)
    }
}

/// The links stage: each target/link pair expanded and ensured in order.
pub open spec fn spec_links(
    m: Map<Seq<char>, EntryV>,
    ls: Seq<(Seq<char>, Seq<char>)>,
    replace: bool,
    home: Seq<char>,
    ans: Seq<bool>,
    ai: int,
) -> (Seq<Outcome>, Map<Seq<char>, EntryV>, int)
    decreases ls.len(),
{
    if ls.len() == 0 {
        (Seq::empty(), m, ai)
    } else {
        let (o, m1, ai1) = spec_link_step(
            m,
            spec_expand_user(ls[0].0, home),
            spec_expand_user(ls[0].1, home),
            replace,
            ans,
            ai,
        );
        let (rest, m2, ai2) = spec_links(m1, ls.skip(1), replace, home, ans, ai1);
        (seq![o] + rest, m2, ai2)
    }
}

/// The copies stage: each source/destination pair expanded and copied in
/// order.
pub open spec fn spec_copies(
    m: Map<Seq<char>, EntryV>,
    cs: Seq<(Seq<char>, Seq<char>)>,
    replace: bool,
    home: Seq<char>,
    ans: Seq<bool>,
    ai: int,
) -> (Seq<Outcome>, Map<Seq<char>, EntryV>, int)
    decreases cs.len(),
{
    if cs.len() == 0 {
        (Seq::empty(), m, ai)
    } else {
        let (o, m1, ai1) = spec_copy_step(
            m,
            spec_expand_user(cs[0].0, home),
            spec_expand_user(cs[0].1, home),
            replace,
            ans,
            ai,
        );
        let (rest, m2, ai2) = spec_copies(m1, cs.skip(1), replace, home, ans, ai1);
        (seq![o] + rest, m2, ai2)
    }
}

/// The commands stage: strictly sequential, stopping at the first spawn or
/// wait failure; the commands past the halt are never attempted and report
/// nothing.
pub open spec fn spec_cmds(
    cmds: Seq<Seq<Seq<char>>>,
    evs: Seq<CmdResult>,
    ci: int,
    dry: bool,
) -> Seq<Outcome>
    decreases cmds.len(),
{
    if cmds.len() == 0 {
        Seq::empty()
    } else {
        let (o, ci2, halt) = spec_cmd_step(cmds[0], evs, ci, dry);
        if halt {
            seq![o]
        } else {
            seq![o] + spec_cmds(cmds.skip(1), evs, ci2, dry)
        }
    }
}

/// A whole run: the five stages in their fixed order, over the starting
/// model `m`, yielding the outcome of every item attempted and the final
/// model. Commands never change the model; what they do to the world
/// stands outside it.
pub open spec fn spec_run(
    m: Map<Seq<char>, EntryV>,
    cfg: ConfigV,
    replace: bool,
    dry: bool,
    home: Seq<char>,
    ans: Seq<bool>,
    evs: Seq<CmdResult>,
) -> (Seq<Outcome>, Map<Seq<char>, EntryV>) {
    let (o1, m1) = spec_dirs(m, cfg.directories, home);
    let (o2, m2, ai2) = spec_files(m1, cfg.files, replace, home, ans, 0);
    let (o3, m3, ai3) = spec_links(m2, cfg.links, replace, home, ans, ai2);
    let (o4, m4, ai4) = spec_copies(m3, cfg.copy, replace, home, ans, ai3);
    let o5 = spec_cmds(cfg.commands, evs, 0, dry);
    (o1 + o2 + o3 + o4 + o5, m4)
}

/// What one line of operator input means: the accepted answers, compared
/// without regard to ASCII case, are `yes` and `y` for proceeding and `no`
/// and `n` for declining; anything else is no answer and must be asked
/// again.
pub open spec fn spec_answer_of(s: Seq<char>) -> Option<bool> {
    if matches_word(s, "yes"@) || matches_word(s, "y"@) {
        Some(true)
    } else if matches_word(s, "no"@) || matches_word(s, "n"@) {
        Some(false)
    } else {
        None
    }
}

/// Maps one line of operator input to a conflict decision: `yes`/`y`
/// proceed, `no`/`n` decline, in any ASCII case; any other line is
/// rejected, and the asking loop around this function must prompt again.
pub fn parse_answer(s: &str) -> (r: Option<bool>)
    ensures
        r == spec_answer_of(s@),
{
    if eq_word_lower(s, "yes") || eq_word_lower(s, "y") {
        Some(true)
    } else if eq_word_lower(s, "no") || eq_word_lower(s, "n") {
        Some(false)
    } else {
        None
    }
}

/// The next operator answer, consumed; none when input ran dry.
pub fn ask_user(answers: &Vec<bool>, ai: &mut usize) -> (r: Option<bool>)
    requires
        *old(ai) <= answers@.len(),
    ensures
        *final(ai) <= answers@.len(),
        *old(ai) < answers@.len() ==> r == Some(answers@[*old(ai) as int]) && *final(ai) == *old(
            ai,
        ) + 1,
        *old(ai) == answers@.len() ==> r is None && *final(ai) == *old(ai),
{
    if *ai < answers.len() {
        let a = answers[*ai];
        *ai = *ai + 1;
        Some(a)
    } else {
        None
    }
}

/// Resolves one conflict: the replace policy proceeds without consuming an
/// answer; otherwise the next answer decides.
pub fn resolve_conflict(replace: bool, answers: &Vec<bool>, ai: &mut usize) -> (c: ConflictChoice)
    requires
        *old(ai) <= answers@.len(),
    ensures
        *final(ai) <= answers@.len(),
        ({
            let (c2, ai2) = spec_resolve(replace, answers@, *old(ai) as int);
            c == c2 && *final(ai) as int == ai2
        }),
{
    if replace {
        ConflictChoice::Proceed
    } else {
        match ask_user(answers, ai) {
            Some(true) => ConflictChoice::Proceed,
            Some(false) => ConflictChoice::Declined,
            None => ConflictChoice::NoInput,
        }
    }
}

/// One command against its recorded result: nothing is spawned for an
/// empty vector or in a dry run. Returns the outcome and whether the
/// remaining commands must be abandoned.
pub fn run_command(command: &Vec<String>, dry: bool, events: &Vec<CmdResult>, ci: &mut usize) -> (r:
    (Outcome, bool))
    requires
        *old(ci) <= events@.len(),
    ensures
        *final(ci) <= events@.len(),
        ({
            let (o2, ci2, halt2) = spec_cmd_step(command.deep_view(), events@, *old(ci) as int, dry);
            r.0 == o2 && *final(ci) as int == ci2 && r.1 == halt2
        }),
{
    if command.len() == 0 {
        proof {
            assert(command.deep_view().len() == command@.len());
        }
        (Outcome::Failed(ErrKind::EmptyCommand), false)
    } else if dry {
        proof {
            assert(command.deep_view().len() == command@.len());
        }
        (Outcome::Created, false)
    } else if *ci < events.len() {
        let ev = events[*ci];
        *ci = *ci + 1;
        proof {
            assert(command.deep_view().len() == command@.len());
        }
        match ev {
            CmdResult::Spawned => (Outcome::Created, false),
            CmdResult::SpawnFailed => (Outcome::Failed(ErrKind::SpawnError), true),
            CmdResult::WaitFailed => (Outcome::Failed(ErrKind::WaitError), true),
        }
    } else {
        proof {
            assert(command.deep_view().len() == command@.len());
        }
        (Outcome::Failed(ErrKind::EndOfInput), true)
    }
}

/// Whether the path is the bare root `/`.
fn is_root_exec(p: &str) -> (r: bool)
    ensures
        r == is_root_path(p@),
{
    p.unicode_len() == 1 && p.get_char(0) == '/'
}

/// Walks the directory chain along `p`, creating missing directories and
/// stopping at an entry of another kind.
fn mkdirp(fs: &mut Fs, p: &str, include_self: bool) -> (ok: bool)
    requires
        old(fs).wf(),
    ensures
        final(fs).wf(),
        ({
            let (ok2, m2) = spec_mkdirp(old(fs)@, p@, include_self);
            ok == ok2 && final(fs)@ == m2
        }),
{
    let n = p.unicode_len();
    let mut j: usize = 1;
    while j < n
        invariant
            fs.wf(),
            n == p@.len(),
            1 <= j,
            n > 0 ==> j <= n,
            n == 0 ==> j == 1,
            spec_mkdirp(old(fs)@, p@, include_self) == spec_mkdirp_from(
                fs@,
                p@,
                j as int,
                include_self,
            ),
        decreases n - j,
    {
        let ghost pre = fs@;
        if p.get_char(j) == '/' {
            let k = p.substring_char(0, j);
            proof {
                assert(k@ =~= p@.take(j as int));
            }
            if !is_root_exec(k) {
                match fs.lookup(k) {
                    None => {
                        fs.set(k, Entry::Dir);
                        proof {
                            assert(spec_mkdirp_from(pre, p@, j as int, include_self)
                                == spec_mkdirp_from(
                                pre.insert(p@.take(j as int), EntryV::Dir),
                                p@,
                                j + 1 as int,
                                include_self,
                            ));
                        }
                    },
                    Some(Entry::Dir) => {
                        proof {
                            assert(spec_mkdirp_from(pre, p@, j as int, include_self)
                                == spec_mkdirp_from(pre, p@, j + 1 as int, include_self));
                        }
                    },
                    Some(_) => {
                        proof {
                            assert(spec_mkdirp_from(pre, p@, j as int, include_self) == (
                                false,
                                pre,
                            ));
                        }
                        return false;
                    },
                }
            } else {
                proof {
                    assert(spec_mkdirp_from(pre, p@, j as int, include_self) == spec_mkdirp_from(
                        pre,
                        p@,
                        j + 1 as int,
                        include_self,
                    ));
                }
            }
        } else {
            proof {
                assert(spec_mkdirp_from(pre, p@, j as int, include_self) == spec_mkdirp_from(
                    pre,
                    p@,
                    j + 1 as int,
                    include_self,
                ));
            }
        }
        j += 1;
    }
    if include_self && n >= 1 {
        let ghost pre = fs@;
        let k = p.substring_char(0, n);
        proof {
            assert(k@ =~= p@.take(n as int));
            assert(k@ =~= p@);
        }
        if !is_root_exec(k) {
            match fs.lookup(k) {
                None => {
                    fs.set(k, Entry::Dir);
                    proof {
                        assert(spec_mkdirp_from(pre, p@, n as int, include_self)
                            == spec_mkdirp_from(
                            pre.insert(p@.take(n as int), EntryV::Dir),
                            p@,
                            n + 1 as int,
                            include_self,
                        ));
                        assert(spec_mkdirp_from(fs@, p@, n + 1 as int, include_self) == (
                            true,
                            fs@,
                        ));
                    }
                },
                Some(Entry::Dir) => {
                    proof {
                        assert(spec_mkdirp_from(pre, p@, n as int, include_self)
                            == spec_mkdirp_from(pre, p@, n + 1 as int, include_self));
                        assert(spec_mkdirp_from(pre, p@, n + 1 as int, include_self) == (
                            true,
                            pre,
                        ));
                    }
                },
                Some(_) => {
                    proof {
                        assert(spec_mkdirp_from(pre, p@, n as int, include_self) == (false, pre));
                    }
                    return false;
                },
            }
        } else {
            proof {
                assert(spec_mkdirp_from(pre, p@, n as int, include_self) == spec_mkdirp_from(
                    pre,
                    p@,
                    n + 1 as int,
                    include_self,
                ));
                assert(spec_mkdirp_from(pre, p@, n + 1 as int, include_self) == (true, pre));
            }
        }
    } else {
        proof {
            if n == 0 {
                assert(spec_mkdirp_from(fs@, p@, j as int, include_self) == (true, fs@));
            } else {
                assert(spec_mkdirp_from(fs@, p@, j as int, include_self) == spec_mkdirp_from(
                    fs@,
                    p@,
                    j + 1 as int,
                    include_self,
                ));
                assert(spec_mkdirp_from(fs@, p@, j + 1 as int, include_self) == (true, fs@));
            }
        }
    }
    true
}

/// One directory item: expands the path; an existing directory is already
/// satisfied, otherwise the directory and its missing parents are created.
pub fn create_directory(fs: &mut Fs, path: &str, home: &str) -> (o: Outcome)
    requires
        old(fs).wf(),
    ensures
        final(fs).wf(),
        ({
            let (o2, m2) = spec_dir_step(old(fs)@, spec_expand_user(path@, home@));
            o == o2 && final(fs)@ == m2
        }),
{
    let ps = expand_user(path, home);
    let p = ps.as_str();
    if is_root_exec(p) {
        return Outcome::SkippedAlreadySatisfied;
    }
    match fs.lookup(p) {
        Some(Entry::Dir) => {
            return Outcome::SkippedAlreadySatisfied;
        },
        _ => (),
    }
    if mkdirp(fs, p, true) {
        Outcome::Created
    } else {
        Outcome::Failed(ErrKind::IOError)
    }
}

/// One file item: expands the path; any existing entry is a conflict,
/// resolved by the replace policy or the operator, and removed when
/// proceeding; then the parent chain is ensured and an empty file created.
pub fn create_file(
    fs: &mut Fs,
    path: &str,
    replace: bool,
    home: &str,
    answers: &Vec<bool>,
    ai: &mut usize,
) -> (o: Outcome)
    requires
        old(fs).wf(),
        *old(ai) <= answers@.len(),
    ensures
        final(fs).wf(),
        *final(ai) <= answers@.len(),
        ({
            let (o2, m2, ai2) = spec_file_step(
                old(fs)@,
                spec_expand_user(path@, home@),
                replace,
                answers@,
                *old(ai) as int,
            );
            o == o2 && final(fs)@ == m2 && *final(ai) as int == ai2
        }),
{
    let ps = expand_user(path, home);
    let p = ps.as_str();
    if p.unicode_len() == 0 || is_root_exec(p) {
        return Outcome::Failed(ErrKind::IOError);
    }
    if fs.contains(p) {
        match resolve_conflict(replace, answers, ai) {
            ConflictChoice::Proceed => {
                fs.remove_all(p);
                if mkdirp(fs, p, false) {
                    fs.set(p, Entry::File { content: 0 });
                    Outcome::Replaced
                } else {
                    Outcome::Failed(ErrKind::IOError)
                }
            },
            ConflictChoice::Declined => Outcome::SkippedByUser,
            ConflictChoice::NoInput => Outcome::Failed(ErrKind::EndOfInput),
        }
    } else {
        if mkdirp(fs, p, false) {
            fs.set(p, Entry::File { content: 0 });
            Outcome::Created
        } else {
            Outcome::Failed(ErrKind::IOError)
        }
    }
}

/// One link item: expands target and link path; the target must resolve;
/// a link already pointing at it is already satisfied; any other entry at
/// the link path is a conflict; then the link is created.
pub fn create_symlink(
    fs: &mut Fs,
    src: &str,
    dest: &str,
    replace: bool,
    home: &str,
    answers: &Vec<bool>,
    ai: &mut usize,
) -> (o: Outcome)
    requires
        old(fs).wf(),
        *old(ai) <= answers@.len(),
    ensures
        final(fs).wf(),
        *final(ai) <= answers@.len(),
        ({
            let (o2, m2, ai2) = spec_link_step(
                old(fs)@,
                spec_expand_user(src@, home@),
                spec_expand_user(dest@, home@),
                replace,
                answers@,
                *old(ai) as int,
            );
            o == o2 && final(fs)@ == m2 && *final(ai) as int == ai2
        }),
{
    let ts = expand_user(src, home);
    let ls = expand_user(dest, home);
    let t = match get_absolute_path(fs, ts.as_str()) {
        Ok(t) => t,
        Err(_) => {
            return Outcome::Failed(ErrKind::NotFound);
        },
    };
    match fs.lookup(ls.as_str()) {
        Some(e) => {
            let already = match &e {
                Entry::Link { target } => str_eq(target.as_str(), t.as_str()),
                _ => false,
            };
            if already {
                Outcome::SkippedAlreadySatisfied
            } else {
                match resolve_conflict(replace, answers, ai) {
                    ConflictChoice::Proceed => {
                        fs.remove_all(ls.as_str());
                        fs.set(ls.as_str(), Entry::Link { target: t });
                        Outcome::Replaced
                    },
                    ConflictChoice::Declined => Outcome::SkippedByUser,
                    ConflictChoice::NoInput => Outcome::Failed(ErrKind::EndOfInput),
                }
            }
        },
        None => {
            fs.set(ls.as_str(), Entry::Link { target: t });
            Outcome::Created
        },
    }
}

/// One copy item: expands source and destination; the source must resolve;
/// an existing destination is always a conflict, removed when proceeding;
/// then the source is copied, a directory with its whole subtree.
pub fn copy_path(
    fs: &mut Fs,
    src: &str,
    dest: &str,
    replace: bool,
    home: &str,
    answers: &Vec<bool>,
    ai: &mut usize,
) -> (o: Outcome)
    requires
        old(fs).wf(),
        *old(ai) <= answers@.len(),
    ensures
        final(fs).wf(),
        *final(ai) <= answers@.len(),
        ({
            let (o2, m2, ai2) = spec_copy_step(
                old(fs)@,
                spec_expand_user(src@, home@),
                spec_expand_user(dest@, home@),
                replace,
                answers@,
                *old(ai) as int,
            );
            o == o2 && final(fs)@ == m2 && *final(ai) as int == ai2
        }),
{
    let ss = expand_user(src, home);
    let ds = expand_user(dest, home);
    if !fs.contains(ss.as_str()) {
        return Outcome::Failed(ErrKind::NotFound);
    }
    if fs.contains(ds.as_str()) {
        match resolve_conflict(replace, answers, ai) {
            ConflictChoice::Proceed => {
                fs.remove_all(ds.as_str());
                fs.do_copy(ss.as_str(), ds.as_str());
                Outcome::Replaced
            },
            ConflictChoice::Declined => Outcome::SkippedByUser,
            ConflictChoice::NoInput => Outcome::Failed(ErrKind::EndOfInput),
        }
    } else {
        fs.do_copy(ss.as_str(), ds.as_str());
        Outcome::Created
    }
}

/// Whether the path holds a symbolic link; a missing or plain entry does
/// not.
pub fn is_symbol_link(fs: &Fs, path: &str) -> (r: bool)
    requires
        fs.wf(),
    ensures
        r == (fs@.dom().contains(path@) && fs@[path@] is Link),
{
    match fs.lookup(path) {
        Some(Entry::Link { target: _ }) => true,
        _ => false,
    }
}

/// The canonical absolute form of a path: in the model, an existing path
/// resolves to itself and a missing one cannot be resolved.
pub fn get_absolute_path(fs: &Fs, path: &str) -> (r: Result<String, ErrKind>)
    requires
        fs.wf(),
    ensures
        fs@.dom().contains(path@) ==> (r matches Ok(s) && s@ == path@),
        !fs@.dom().contains(path@) ==> (r matches Err(e) && e == ErrKind::NotFound),
{
    if fs.contains(path) {
        Ok(String::from_str(path))
    } else {
        Err(ErrKind::NotFound)
    }
}

/// The directories stage over the model.
fn run_dirs(fs: &mut Fs, dirs: &Vec<String>, home: &str) -> (outs: Vec<Outcome>)
    requires
        old(fs).wf(),
    ensures
        final(fs).wf(),
        ({
            let (o, m) = spec_dirs(old(fs)@, dirs.deep_view(), home@);
            outs@ == o && final(fs)@ == m
        }),
{
    let n = dirs.len();
    let mut outs: Vec<Outcome> = Vec::new();
    let mut i: usize = 0;
    proof {
        let dv = dirs.deep_view();
        assert(dv.skip(0) =~= dv);
        let (o0, m0) = spec_dirs(fs@, dv, home@);
        assert(outs@ + o0 =~= o0);
    }
    while i < n
        invariant
            fs.wf(),
            n == dirs@.len(),
            0 <= i <= n,
            ({
                let (ofull, mfull) = spec_dirs(old(fs)@, dirs.deep_view(), home@);
                let (opart, mpart) = spec_dirs(fs@, dirs.deep_view().skip(i as int), home@);
                ofull == outs@ + opart && mfull == mpart
            }),
        decreases n - i,
    {
        let ghost pre = fs@;
        let ghost dv = dirs.deep_view();
        let o = create_directory(fs, dirs[i].as_str(), home);
        outs.push(o);
        proof {
            assert(dv.skip(i as int)[0] == dv[i as int]);
            assert(dv[i as int] == dirs@[i as int]@);
            assert(dv.skip(i as int).skip(1) =~= dv.skip(i + 1 as int));
            let (ostep, mstep) = spec_dir_step(pre, spec_expand_user(dv[i as int], home@));
            let (orest, mrest) = spec_dirs(mstep, dv.skip(i + 1 as int), home@);
            assert(spec_dirs(pre, dv.skip(i as int), home@) == (seq![ostep] + orest, mrest));
            let (ofull, mfull) = spec_dirs(old(fs)@, dv, home@);
            assert(ofull =~= outs@ + orest);
        }
        i += 1;
    }
    proof {
        let dv = dirs.deep_view();
        assert(dv.skip(n as int) =~= Seq::<Seq<char>>::empty());
        assert(spec_dirs(fs@, dv.skip(n as int), home@) == (Seq::<Outcome>::empty(), fs@));
        let (ofull, mfull) = spec_dirs(old(fs)@, dv, home@);
        assert(ofull =~= outs@);
    }
    outs
}

/// The files stage over the model, threading the operator's answers.
fn run_files(
    fs: &mut Fs,
    files: &Vec<String>,
    replace: bool,
    home: &str,
    answers: &Vec<bool>,
    ai: &mut usize,
) -> (outs: Vec<Outcome>)
    requires
        old(fs).wf(),
        *old(ai) <= answers@.len(),
    ensures
        final(fs).wf(),
        *final(ai) <= answers@.len(),
        ({
            let (o, m, a2) = spec_files(
                old(fs)@,
                files.deep_view(),
                replace,
                home@,
                answers@,
                *old(ai) as int,
            );
            outs@ == o && final(fs)@ == m && *final(ai) as int == a2
        }),
{
    let n = files.len();
    let mut outs: Vec<Outcome> = Vec::new();
    let mut i: usize = 0;
    proof {
        let dv = files.deep_view();
        assert(dv.skip(0) =~= dv);
        let (o0, m0, a0) = spec_files(fs@, dv, replace, home@, answers@, *ai as int);
        assert(outs@ + o0 =~= o0);
    }
    while i < n
        invariant
            fs.wf(),
            n == files@.len(),
            0 <= i <= n,
            *ai <= answers@.len(),
            ({
                let (ofull, mfull, afull) = spec_files(
                    old(fs)@,
                    files.deep_view(),
                    replace,
                    home@,
                    answers@,
                    *old(ai) as int,
                );
                let (opart, mpart, apart) = spec_files(
                    fs@,
                    files.deep_view().skip(i as int),
                    replace,
                    home@,
                    answers@,
                    *ai as int,
                );
                ofull == outs@ + opart && mfull == mpart && afull == apart
            }),
        decreases n - i,
    {
        let ghost pre = fs@;
        let ghost preai = *ai as int;
        let ghost dv = files.deep_view();
        let o = create_file(fs, files[i].as_str(), replace, home, answers, ai);
        outs.push(o);
        proof {
            assert(dv.skip(i as int)[0] == dv[i as int]);
            assert(dv[i as int] == files@[i as int]@);
            assert(dv.skip(i as int).skip(1) =~= dv.skip(i + 1 as int));
            let (ostep, mstep, astep) = spec_file_step(
                pre,
                spec_expand_user(dv[i as int], home@),
                replace,
                answers@,
                preai,
            );
            let (orest, mrest, arest) = spec_files(
                mstep,
                dv.skip(i + 1 as int),
                replace,
                home@,
                answers@,
                astep,
            );
            assert(spec_files(pre, dv.skip(i as int), replace, home@, answers@, preai) == (
                seq![ostep] + orest,
                mrest,
                arest,
            ));
            let (ofull, mfull, afull) = spec_files(
                old(fs)@,
                dv,
                replace,
                home@,
                answers@,
                *old(ai) as int,
            );
            assert(ofull =~= outs@ + orest);
        }
        i += 1;
    }
    proof {
        let dv = files.deep_view();
        assert(dv.skip(n as int) =~= Seq::<Seq<char>>::empty());
        let (ofull, mfull, afull) = spec_files(
            old(fs)@,
            dv,
            replace,
            home@,
            answers@,
            *old(ai) as int,
        );
        assert(ofull =~= outs@);
    }
    outs
}

/// The links stage over the model.
fn run_links(
    fs: &mut Fs,
    links: &Vec<(String, String)>,
    replace: bool,
    home: &str,
    answers: &Vec<bool>,
    ai: &mut usize,
) -> (outs: Vec<Outcome>)
    requires
        old(fs).wf(),
        *old(ai) <= answers@.len(),
    ensures
        final(fs).wf(),
        *final(ai) <= answers@.len(),
        ({
            let (o, m, a2) = spec_links(
                old(fs)@,
                links.deep_view(),
                replace,
                home@,
                answers@,
                *old(ai) as int,
            );
            outs@ == o && final(fs)@ == m && *final(ai) as int == a2
        }),
{
    let n = links.len();
    let mut outs: Vec<Outcome> = Vec::new();
    let mut i: usize = 0;
    proof {
        let dv = links.deep_view();
        assert(dv.skip(0) =~= dv);
        let (o0, m0, a0) = spec_links(fs@, dv, replace, home@, answers@, *ai as int);
        assert(outs@ + o0 =~= o0);
    }
    while i < n
        invariant
            fs.wf(),
            n == links@.len(),
            0 <= i <= n,
            *ai <= answers@.len(),
            ({
                let (ofull, mfull, afull) = spec_links(
                    old(fs)@,
                    links.deep_view(),
                    replace,
                    home@,
                    answers@,
                    *old(ai) as int,
                );
                let (opart, mpart, apart) = spec_links(
                    fs@,
                    links.deep_view().skip(i as int),
                    replace,
                    home@,
                    answers@,
                    *ai as int,
                );
                ofull == outs@ + opart && mfull == mpart && afull == apart
            }),
        decreases n - i,
    {
        let ghost pre = fs@;
        let ghost preai = *ai as int;
        let ghost dv = links.deep_view();
        let o = create_symlink(
            fs,
            links[i].0.as_str(),
            links[i].1.as_str(),
            replace,
            home,
            answers,
            ai,
        );
        outs.push(o);
        proof {
            assert(dv.skip(i as int)[0] == dv[i as int]);
            assert(dv[i as int] == (links@[i as int].0@, links@[i as int].1@));
            assert(dv.skip(i as int).skip(1) =~= dv.skip(i + 1 as int));
            let (ostep, mstep, astep) = spec_link_step(
                pre,
                spec_expand_user(dv[i as int].0, home@),
                spec_expand_user(dv[i as int].1, home@),
                replace,
                answers@,
                preai,
            );
            let (orest, mrest, arest) = spec_links(
                mstep,
                dv.skip(i + 1 as int),
                replace,
                home@,
                answers@,
                astep,
            );
            assert(spec_links(pre, dv.skip(i as int), replace, home@, answers@, preai) == (
                seq![ostep] + orest,
                mrest,
                arest,
            ));
            let (ofull, mfull, afull) = spec_links(
                old(fs)@,
                dv,
                replace,
                home@,
                answers@,
                *old(ai) as int,
            );
            assert(ofull =~= outs@ + orest);
        }
        i += 1;
    }
    proof {
        let dv = links.deep_view();
        assert(dv.skip(n as int) =~= Seq::<(Seq<char>, Seq<char>)>::empty());
        let (ofull, mfull, afull) = spec_links(
            old(fs)@,
            dv,
            replace,
            home@,
            answers@,
            *old(ai) as int,
        );
        assert(ofull =~= outs@);
    }
    outs
}

/// The copies stage over the model.
fn run_copies(
    fs: &mut Fs,
    copies: &Vec<(String, String)>,
    replace: bool,
    home: &str,
    answers: &Vec<bool>,
    ai: &mut usize,
) -> (outs: Vec<Outcome>)
    requires
        old(fs).wf(),
        *old(ai) <= answers@.len(),
    ensures
        final(fs).wf(),
        *final(ai) <= answers@.len(),
        ({
            let (o, m, a2) = spec_copies(
                old(fs)@,
                copies.deep_view(),
                replace,
                home@,
                answers@,
                *old(ai) as int,
            );
            outs@ == o && final(fs)@ == m && *final(ai) as int == a2
        }),
{
    let n = copies.len();
    let mut outs: Vec<Outcome> = Vec::new();
    let mut i: usize = 0;
    proof {
        let dv = copies.deep_view();
        assert(dv.skip(0) =~= dv);
        let (o0, m0, a0) = spec_copies(fs@, dv, replace, home@, answers@, *ai as int);
        assert(outs@ + o0 =~= o0);
    }
    while i < n
        invariant
            fs.wf(),
            n == copies@.len(),
            0 <= i <= n,
            *ai <= answers@.len(),
            ({
                let (ofull, mfull, afull) = spec_copies(
                    old(fs)@,
                    copies.deep_view(),
                    replace,
                    home@,
                    answers@,
                    *old(ai) as int,
                );
                let (opart, mpart, apart) = spec_copies(
                    fs@,
                    copies.deep_view().skip(i as int),
                    replace,
                    home@,
                    answers@,
                    *ai as int,
                );
                ofull == outs@ + opart && mfull == mpart && afull == apart
            }),
        decreases n - i,
    {
        let ghost pre = fs@;
        let ghost preai = *ai as int;
        let ghost dv = copies.deep_view();
        let o = copy_path(
            fs,
            copies[i].0.as_str(),
            copies[i].1.as_str(),
            replace,
            home,
            answers,
            ai,
        );
        outs.push(o);
        proof {
            assert(dv.skip(i as int)[0] == dv[i as int]);
            assert(dv[i as int] == (copies@[i as int].0@, copies@[i as int].1@));
            assert(dv.skip(i as int).skip(1) =~= dv.skip(i + 1 as int));
            let (ostep, mstep, astep) = spec_copy_step(
                pre,
                spec_expand_user(dv[i as int].0, home@),
                spec_expand_user(dv[i as int].1, home@),
                replace,
                answers@,
                preai,
            );
            let (orest, mrest, arest) = spec_copies(
                mstep,
                dv.skip(i + 1 as int),
                replace,
                home@,
                answers@,
                astep,
            );
            assert(spec_copies(pre, dv.skip(i as int), replace, home@, answers@, preai) == (
                seq![ostep] + orest,
                mrest,
                arest,
            ));
            let (ofull, mfull, afull) = spec_copies(
                old(fs)@,
                dv,
                replace,
                home@,
                answers@,
                *old(ai) as int,
            );
            assert(ofull =~= outs@ + orest);
        }
        i += 1;
    }
    proof {
        let dv = copies.deep_view();
        assert(dv.skip(n as int) =~= Seq::<(Seq<char>, Seq<char>)>::empty());
        let (ofull, mfull, afull) = spec_copies(
            old(fs)@,
            dv,
            replace,
            home@,
            answers@,
            *old(ai) as int,
        );
        assert(ofull =~= outs@);
    }
    outs
}

/// The commands stage: strictly sequential, abandoning the rest at the
/// first spawn or wait failure.
fn run_cmds(commands: &Vec<Vec<String>>, dry: bool, events: &Vec<CmdResult>, ci: &mut usize) -> (outs:
    Vec<Outcome>)
    requires
        *old(ci) <= events@.len(),
    ensures
        *final(ci) <= events@.len(),
        outs@ == spec_cmds(commands.deep_view(), events@, *old(ci) as int, dry),
{
    let n = commands.len();
    let mut outs: Vec<Outcome> = Vec::new();
    let mut i: usize = 0;
    proof {
        let dv = commands.deep_view();
        assert(dv.skip(0) =~= dv);
        let o0 = spec_cmds(dv, events@, *ci as int, dry);
        assert(outs@ + o0 =~= o0);
    }
    while i < n
        invariant
            n == commands@.len(),
            0 <= i <= n,
            *ci <= events@.len(),
            spec_cmds(commands.deep_view(), events@, *old(ci) as int, dry) == outs@ + spec_cmds(
                commands.deep_view().skip(i as int),
                events@,
                *ci as int,
                dry,
            ),
        decreases n - i,
    {
        let ghost preci = *ci as int;
        let ghost dv = commands.deep_view();
        let (o, halt) = run_command(&commands[i], dry, events, ci);
        outs.push(o);
        proof {
            assert(dv.skip(i as int)[0] == dv[i as int]);
            assert(commands@[i as int].deep_view() == dv[i as int]);
            assert(dv.skip(i as int).skip(1) =~= dv.skip(i + 1 as int));
            let (ostep, cstep, hstep) = spec_cmd_step(dv[i as int], events@, preci, dry);
            if hstep {
                assert(spec_cmds(dv.skip(i as int), events@, preci, dry) == seq![ostep]);
            } else {
                assert(spec_cmds(dv.skip(i as int), events@, preci, dry) == seq![ostep]
                    + spec_cmds(dv.skip(i + 1 as int), events@, cstep, dry));
            }
            assert(spec_cmds(dv, events@, *old(ci) as int, dry) =~= outs@ + (if hstep {
                Seq::<Outcome>::empty()
            } else {
                spec_cmds(dv.skip(i + 1 as int), events@, cstep, dry)
            }));
        }
        if halt {
            proof {
                assert(spec_cmds(commands.deep_view(), events@, *old(ci) as int, dry) =~= outs@);
            }
            return outs;
        }
        i += 1;
    }
    proof {
        let dv = commands.deep_view();
        assert(dv.skip(n as int) =~= Seq::<Seq<Seq<char>>>::empty());
        assert(spec_cmds(dv.skip(n as int), events@, *ci as int, dry) =~= Seq::<Outcome>::empty());
        assert(spec_cmds(dv, events@, *old(ci) as int, dry) =~= outs@);
    }
    outs
}

/// One whole run over the model: the five stages in their fixed order.
fn run_stages(
    fs: &mut Fs,
    config: &Config,
    replace: bool,
    dry: bool,
    home: &str,
    answers: &Vec<bool>,
    events: &Vec<CmdResult>,
) -> (outcomes: Vec<Outcome>)
    requires
        old(fs).wf(),
    ensures
        final(fs).wf(),
        ({
            let (o, m) = spec_run(old(fs)@, config@, replace, dry, home@, answers@, events@);
            outcomes@ == o && final(fs)@ == m
        }),
{
    let mut ai: usize = 0;
    let mut ci: usize = 0;
    let mut outs = run_dirs(fs, &config.directories, home);
    let mut o2 = run_files(fs, &config.files, replace, home, answers, &mut ai);
    let mut o3 = run_links(fs, &config.links, replace, home, answers, &mut ai);
    let mut o4 = run_copies(fs, &config.copy, replace, home, answers, &mut ai);
    let mut o5 = run_cmds(&config.commands, dry, events, &mut ci);
    let ghost parts = (outs@, o2@, o3@, o4@, o5@);
    outs.append(&mut o2);
    outs.append(&mut o3);
    outs.append(&mut o4);
    outs.append(&mut o5);
    proof {
        let (o, m) = spec_run(old(fs)@, config@, replace, dry, home@, answers@, events@);
        assert(outs@ =~= parts.0 + parts.1 + parts.2 + parts.3 + parts.4);
        assert(outs@ =~= o);
    }
    outs
}

/// A live run: applies the document to the model, resolving conflicts by
/// the replace policy or the operator's answers, and honouring each
/// command's recorded result. Returns the outcome of every item attempted.
pub fn apply(
    fs: &mut Fs,
    config: &Config,
    replace: bool,
    home: &str,
    answers: &Vec<bool>,
    events: &Vec<CmdResult>,
) -> (outcomes: Vec<Outcome>)
    requires
        old(fs).wf(),
    ensures
        final(fs).wf(),
        ({
            let (o, m) = spec_run(old(fs)@, config@, replace, false, home@, answers@, events@);
            outcomes@ == o && final(fs)@ == m
        }),
{
    run_stages(fs, config, replace, false, home, answers, events)
}

/// A dry run: simulates the whole run on a copy of the model — every
/// decision, prompt and report as in a live run, with every spawn assumed
/// to succeed — and leaves the model itself untouched, which the shared
/// reference guarantees.
pub fn dry_apply(fs: &Fs, config: &Config, replace: bool, home: &str, answers: &Vec<bool>) -> (outcomes:
    Vec<Outcome>)
    requires
        fs.wf(),
    ensures
        outcomes@ == spec_run(
            fs@,
            config@,
            replace,
            true,
            home@,
            answers@,
            Seq::<CmdResult>::empty(),
        ).0,
{
    let mut shadow = fs.duplicate();
    let events: Vec<CmdResult> = Vec::new();
    run_stages(&mut shadow, config, replace, true, home, answers, &events)
}

/// Whether a run succeeded as a whole: it did exactly when no item
/// reported a failure.
pub fn run_succeeded(outcomes: &Vec<Outcome>) -> (r: bool)
    ensures
        r == (forall|i: int| 0 <= i < outcomes@.len() ==> !((#[trigger] outcomes@[i]) is Failed)),
{
    let n = outcomes.len();
    let mut i: usize = 0;
    while i < n
        invariant
            n == outcomes@.len(),
            0 <= i <= n,
            forall|j: int| 0 <= j < i ==> !((#[trigger] outcomes@[j]) is Failed),
        decreases n - i,
    {
        if let Outcome::Failed(_) = outcomes[i] {
            return false;
        }
        i += 1;
    }
    true
}

} // verus!
