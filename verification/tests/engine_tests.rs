use axdot::config::Config;
use axdot::engine::apply;
use axdot::engine::dry_apply;
use axdot::engine::get_absolute_path;
use axdot::engine::is_symbol_link;
use axdot::engine::parse_answer;
use axdot::engine::run_succeeded;
use axdot::engine::CmdResult;
use axdot::engine::ErrKind;
use axdot::engine::Outcome;
use axdot::fs_model::Entry;
use axdot::fs_model::Fs;
use axdot::paths::expand_user;

fn empty_config() -> Config {
    Config {
        commands: vec![],
        directories: vec![],
        files: vec![],
        links: vec![],
        copy: vec![],
        archives: vec![],
    }
}

fn no_answers() -> Vec<bool> {
    vec![]
}

fn no_events() -> Vec<CmdResult> {
    vec![]
}

#[test]
fn expand_user_replaces_leading_marker() {
    assert_eq!(expand_user("~/notes", "/home/u"), "/home/u/notes".to_string());
    assert_eq!(expand_user("~", "/home/u"), "/home/u".to_string());
    assert_eq!(expand_user("/etc/hosts", "/home/u"), "/etc/hosts".to_string());
    assert_eq!(expand_user("", "/home/u"), "".to_string());
    assert_eq!(expand_user("a~b", "/home/u"), "a~b".to_string());
    assert_eq!(expand_user("~/x", ""), "/x".to_string());
}

#[test]
fn directory_created_with_parents() {
    let mut fs = Fs::new();
    let mut cfg = empty_config();
    cfg.directories = vec!["/a/b/c".to_string()];
    let outs = apply(&mut fs, &cfg, false, "", &no_answers(), &no_events());
    assert_eq!(outs, vec![Outcome::Created]);
    assert_eq!(fs.lookup("/a"), Some(Entry::Dir));
    assert_eq!(fs.lookup("/a/b"), Some(Entry::Dir));
    assert_eq!(fs.lookup("/a/b/c"), Some(Entry::Dir));
}

#[test]
fn existing_directory_is_skipped() {
    let mut fs = Fs::new();
    fs.set("/a", Entry::Dir);
    let mut cfg = empty_config();
    cfg.directories = vec!["/a".to_string()];
    let outs = apply(&mut fs, &cfg, false, "", &no_answers(), &no_events());
    assert_eq!(outs, vec![Outcome::SkippedAlreadySatisfied]);
}

#[test]
fn directory_blocked_by_file_fails() {
    let mut fs = Fs::new();
    fs.set("/a", Entry::File { content: 7 });
    let mut cfg = empty_config();
    cfg.directories = vec!["/a/b".to_string()];
    let outs = apply(&mut fs, &cfg, false, "", &no_answers(), &no_events());
    assert_eq!(outs, vec![Outcome::Failed(ErrKind::IOError)]);
    assert_eq!(fs.lookup("/a"), Some(Entry::File { content: 7 }));
}

#[test]
fn file_created_empty_under_home() {
    let mut fs = Fs::new();
    let mut cfg = empty_config();
    cfg.files = vec!["~/rc".to_string()];
    let outs = apply(&mut fs, &cfg, false, "/home/u", &no_answers(), &no_events());
    assert_eq!(outs, vec![Outcome::Created]);
    assert_eq!(fs.lookup("/home/u/rc"), Some(Entry::File { content: 0 }));
    assert_eq!(fs.lookup("/home"), Some(Entry::Dir));
    assert_eq!(fs.lookup("/home/u"), Some(Entry::Dir));
}

#[test]
fn idempotence_dirs_and_links() {
    // Applying the same declarations twice: the second run changes nothing
    // and reports directory and link items as already satisfied.
    let mut fs = Fs::new();
    fs.set("/src", Entry::File { content: 3 });
    let mut cfg = empty_config();
    cfg.directories = vec!["/a/b".to_string(), "/c".to_string()];
    cfg.links = vec![("/src".to_string(), "/lnk".to_string())];
    let outs1 = apply(&mut fs, &cfg, false, "", &no_answers(), &no_events());
    assert_eq!(
        outs1,
        vec![Outcome::Created, Outcome::Created, Outcome::Created]
    );
    let snapshot = fs.duplicate();
    let outs2 = apply(&mut fs, &cfg, false, "", &no_answers(), &no_events());
    assert_eq!(
        outs2,
        vec![
            Outcome::SkippedAlreadySatisfied,
            Outcome::SkippedAlreadySatisfied,
            Outcome::SkippedAlreadySatisfied
        ]
    );
    // Final state identical to the state after the first run.
    for p in ["/a", "/a/b", "/c", "/src", "/lnk"] {
        assert_eq!(fs.lookup(p), snapshot.lookup(p));
    }
}

#[test]
fn idempotence_file_state_preserved_on_replace() {
    // A file declaration is re-applied with the replace policy: the entry
    // is removed and recreated empty, so the state does not change.
    let mut fs = Fs::new();
    let mut cfg = empty_config();
    cfg.files = vec!["/d/f".to_string()];
    let outs1 = apply(&mut fs, &cfg, false, "", &no_answers(), &no_events());
    assert_eq!(outs1, vec![Outcome::Created]);
    let outs2 = apply(&mut fs, &cfg, true, "", &no_answers(), &no_events());
    assert_eq!(outs2, vec![Outcome::Replaced]);
    assert_eq!(fs.lookup("/d/f"), Some(Entry::File { content: 0 }));
    assert_eq!(fs.lookup("/d"), Some(Entry::Dir));
}

#[test]
fn dry_run_reports_like_live_run_and_mutates_nothing() {
    let mut cfg = empty_config();
    cfg.directories = vec!["/a".to_string()];
    cfg.files = vec!["/a/f".to_string()];
    cfg.links = vec![("/a/f".to_string(), "/l".to_string())];
    cfg.commands = vec![vec!["true".to_string()]];

    let mut start = Fs::new();
    start.set("/keep", Entry::File { content: 9 });

    let dry_outs = dry_apply(&start, &cfg, false, "", &no_answers());
    // The starting state is untouched.
    assert_eq!(start.lookup("/keep"), Some(Entry::File { content: 9 }));
    assert_eq!(start.lookup("/a"), None);
    assert_eq!(start.lookup("/a/f"), None);
    assert_eq!(start.lookup("/l"), None);

    let mut live = start.duplicate();
    let live_outs = apply(
        &mut live,
        &cfg,
        false,
        "",
        &no_answers(),
        &vec![CmdResult::Spawned],
    );
    assert_eq!(dry_outs, live_outs);
}

#[test]
fn dry_run_makes_the_same_conflict_decisions() {
    // A declined conflict: the dry run consumes the same answer, reports
    // the same skip, and touches nothing.
    let mut start = Fs::new();
    start.set("/f", Entry::File { content: 4 });
    let mut cfg = empty_config();
    cfg.files = vec!["/f".to_string()];
    let answers = vec![false];

    let dry_outs = dry_apply(&start, &cfg, false, "", &answers);
    assert_eq!(dry_outs, vec![Outcome::SkippedByUser]);
    assert_eq!(start.lookup("/f"), Some(Entry::File { content: 4 }));

    let mut live = start.duplicate();
    let live_outs = apply(&mut live, &cfg, false, "", &answers, &no_events());
    assert_eq!(dry_outs, live_outs);
    assert_eq!(live.lookup("/f"), Some(Entry::File { content: 4 }));
}

#[test]
fn link_correctness() {
    let mut fs = Fs::new();
    fs.set("/target", Entry::File { content: 1 });
    let mut cfg = empty_config();
    cfg.links = vec![("/target".to_string(), "/here".to_string())];
    let outs = apply(&mut fs, &cfg, false, "", &no_answers(), &no_events());
    assert_eq!(outs, vec![Outcome::Created]);
    assert_eq!(
        fs.lookup("/here"),
        Some(Entry::Link {
            target: "/target".to_string()
        })
    );
    assert!(is_symbol_link(&fs, "/here"));
    assert!(!is_symbol_link(&fs, "/target"));
}

#[test]
fn link_already_satisfied_then_missing_target_fails() {
    let mut fs = Fs::new();
    fs.set("/t", Entry::Dir);
    fs.set(
        "/l",
        Entry::Link {
            target: "/t".to_string(),
        },
    );
    let mut cfg = empty_config();
    cfg.links = vec![("/t".to_string(), "/l".to_string())];
    let outs = apply(&mut fs, &cfg, false, "", &no_answers(), &no_events());
    assert_eq!(outs, vec![Outcome::SkippedAlreadySatisfied]);

    let mut cfg2 = empty_config();
    cfg2.links = vec![("/absent".to_string(), "/l2".to_string())];
    let outs2 = apply(&mut fs, &cfg2, false, "", &no_answers(), &no_events());
    assert_eq!(outs2, vec![Outcome::Failed(ErrKind::NotFound)]);
}

#[test]
fn conflict_replace_on_file() {
    // With the replace policy the existing file is removed and recreated
    // empty; with replace off and a declining answer it stays untouched.
    let mut fs = Fs::new();
    fs.set("/d", Entry::Dir);
    fs.set("/d/f", Entry::File { content: 42 });
    let mut cfg = empty_config();
    cfg.files = vec!["/d/f".to_string()];

    let outs = apply(&mut fs, &cfg, true, "", &no_answers(), &no_events());
    assert_eq!(outs, vec![Outcome::Replaced]);
    assert_eq!(fs.lookup("/d/f"), Some(Entry::File { content: 0 }));

    fs.set("/d/f", Entry::File { content: 42 });
    let outs2 = apply(&mut fs, &cfg, false, "", &vec![false], &no_events());
    assert_eq!(outs2, vec![Outcome::SkippedByUser]);
    assert_eq!(fs.lookup("/d/f"), Some(Entry::File { content: 42 }));
}

#[test]
fn conflict_accepted_by_answer() {
    let mut fs = Fs::new();
    fs.set("/f", Entry::File { content: 5 });
    let mut cfg = empty_config();
    cfg.files = vec!["/f".to_string()];
    let outs = apply(&mut fs, &cfg, false, "", &vec![true], &no_events());
    assert_eq!(outs, vec![Outcome::Replaced]);
    assert_eq!(fs.lookup("/f"), Some(Entry::File { content: 0 }));
}

#[test]
fn conflict_without_answer_fails() {
    let mut fs = Fs::new();
    fs.set("/f", Entry::File { content: 5 });
    let mut cfg = empty_config();
    cfg.files = vec!["/f".to_string()];
    let outs = apply(&mut fs, &cfg, false, "", &no_answers(), &no_events());
    assert_eq!(outs, vec![Outcome::Failed(ErrKind::EndOfInput)]);
    assert_eq!(fs.lookup("/f"), Some(Entry::File { content: 5 }));
}

#[test]
fn command_sequencing_stops_at_spawn_failure() {
    // Three commands; the second fails to spawn; the third is never
    // attempted and reports nothing.
    let mut fs = Fs::new();
    let mut cfg = empty_config();
    cfg.commands = vec![
        vec!["true".to_string()],
        vec!["false-that-fails-to-spawn".to_string()],
        vec!["touch".to_string(), "/tmp/x".to_string()],
    ];
    let events = vec![CmdResult::Spawned, CmdResult::SpawnFailed];
    let outs = apply(&mut fs, &cfg, false, "", &no_answers(), &events);
    assert_eq!(
        outs,
        vec![Outcome::Created, Outcome::Failed(ErrKind::SpawnError)]
    );
    assert!(!run_succeeded(&outs));
}

#[test]
fn command_wait_failure_stops_and_empty_command_does_not() {
    let mut fs = Fs::new();
    let mut cfg = empty_config();
    cfg.commands = vec![
        vec![],
        vec!["a".to_string()],
        vec!["b".to_string()],
        vec!["c".to_string()],
    ];
    let events = vec![CmdResult::Spawned, CmdResult::WaitFailed];
    let outs = apply(&mut fs, &cfg, false, "", &no_answers(), &events);
    assert_eq!(
        outs,
        vec![
            Outcome::Failed(ErrKind::EmptyCommand),
            Outcome::Created,
            Outcome::Failed(ErrKind::WaitError)
        ]
    );
}

#[test]
fn copy_mirrors_directory_tree() {
    let mut fs = Fs::new();
    fs.set("/src", Entry::Dir);
    fs.set("/src/a", Entry::File { content: 1 });
    fs.set("/src/sub", Entry::Dir);
    fs.set("/src/sub/b", Entry::File { content: 2 });
    fs.set("/other", Entry::File { content: 3 });
    let mut cfg = empty_config();
    cfg.copy = vec![("/src".to_string(), "/dst".to_string())];
    let outs = apply(&mut fs, &cfg, false, "", &no_answers(), &no_events());
    assert_eq!(outs, vec![Outcome::Created]);
    assert_eq!(fs.lookup("/dst"), Some(Entry::Dir));
    assert_eq!(fs.lookup("/dst/a"), Some(Entry::File { content: 1 }));
    assert_eq!(fs.lookup("/dst/sub"), Some(Entry::Dir));
    assert_eq!(fs.lookup("/dst/sub/b"), Some(Entry::File { content: 2 }));
    assert_eq!(fs.lookup("/dst/other"), None);
    // The source is untouched.
    assert_eq!(fs.lookup("/src/a"), Some(Entry::File { content: 1 }));
}

#[test]
fn copy_replace_removes_destination_not_merges() {
    let mut fs = Fs::new();
    fs.set("/src", Entry::Dir);
    fs.set("/src/a", Entry::File { content: 1 });
    fs.set("/dst", Entry::Dir);
    fs.set("/dst/stale", Entry::File { content: 9 });
    let mut cfg = empty_config();
    cfg.copy = vec![("/src".to_string(), "/dst".to_string())];
    let outs = apply(&mut fs, &cfg, true, "", &no_answers(), &no_events());
    assert_eq!(outs, vec![Outcome::Replaced]);
    assert_eq!(fs.lookup("/dst"), Some(Entry::Dir));
    assert_eq!(fs.lookup("/dst/a"), Some(Entry::File { content: 1 }));
    assert_eq!(fs.lookup("/dst/stale"), None);
}

#[test]
fn copy_of_plain_file() {
    let mut fs = Fs::new();
    fs.set("/f", Entry::File { content: 8 });
    let mut cfg = empty_config();
    cfg.copy = vec![("/f".to_string(), "/g".to_string())];
    let outs = apply(&mut fs, &cfg, false, "", &no_answers(), &no_events());
    assert_eq!(outs, vec![Outcome::Created]);
    assert_eq!(fs.lookup("/g"), Some(Entry::File { content: 8 }));
}

#[test]
fn copy_missing_source_fails() {
    let mut fs = Fs::new();
    let mut cfg = empty_config();
    cfg.copy = vec![("/absent".to_string(), "/dst".to_string())];
    let outs = apply(&mut fs, &cfg, false, "", &no_answers(), &no_events());
    assert_eq!(outs, vec![Outcome::Failed(ErrKind::NotFound)]);
}

#[test]
fn copy_declined_leaves_destination() {
    let mut fs = Fs::new();
    fs.set("/s", Entry::File { content: 1 });
    fs.set("/d", Entry::File { content: 2 });
    let mut cfg = empty_config();
    cfg.copy = vec![("/s".to_string(), "/d".to_string())];
    let outs = apply(&mut fs, &cfg, false, "", &vec![false], &no_events());
    assert_eq!(outs, vec![Outcome::SkippedByUser]);
    assert_eq!(fs.lookup("/d"), Some(Entry::File { content: 2 }));
}

#[test]
fn file_at_root_fails() {
    let mut fs = Fs::new();
    let mut cfg = empty_config();
    cfg.files = vec!["/".to_string()];
    let outs = apply(&mut fs, &cfg, false, "", &no_answers(), &no_events());
    assert_eq!(outs, vec![Outcome::Failed(ErrKind::IOError)]);
}

#[test]
fn stages_run_in_fixed_order() {
    // The file lands inside the directory created in the earlier stage,
    // and the link then points at the file.
    let mut fs = Fs::new();
    let mut cfg = empty_config();
    cfg.directories = vec!["/a".to_string()];
    cfg.files = vec!["/a/f".to_string()];
    cfg.links = vec![("/a/f".to_string(), "/l".to_string())];
    let outs = apply(&mut fs, &cfg, false, "", &no_answers(), &no_events());
    assert_eq!(
        outs,
        vec![Outcome::Created, Outcome::Created, Outcome::Created]
    );
    assert!(run_succeeded(&outs));
    assert_eq!(
        fs.lookup("/l"),
        Some(Entry::Link {
            target: "/a/f".to_string()
        })
    );
}

#[test]
fn absolute_path_of_existing_and_missing() {
    let mut fs = Fs::new();
    fs.set("/x", Entry::Dir);
    assert_eq!(get_absolute_path(&fs, "/x"), Ok("/x".to_string()));
    assert_eq!(get_absolute_path(&fs, "/y"), Err(ErrKind::NotFound));
}

#[test]
fn duplicate_directory_declared_twice() {
    // Within one run the second occurrence finds the first one's work.
    let mut fs = Fs::new();
    let mut cfg = empty_config();
    cfg.directories = vec!["/a".to_string(), "/a".to_string()];
    let outs = apply(&mut fs, &cfg, false, "", &no_answers(), &no_events());
    assert_eq!(
        outs,
        vec![Outcome::Created, Outcome::SkippedAlreadySatisfied]
    );
}

#[test]
fn home_marker_expands_in_links_and_copies() {
    let mut fs = Fs::new();
    fs.set("/home/u", Entry::Dir);
    fs.set("/home/u/t", Entry::File { content: 6 });
    let mut cfg = empty_config();
    cfg.links = vec![("~/t".to_string(), "~/l".to_string())];
    cfg.copy = vec![("~/t".to_string(), "~/c".to_string())];
    let outs = apply(&mut fs, &cfg, false, "/home/u", &no_answers(), &no_events());
    assert_eq!(outs, vec![Outcome::Created, Outcome::Created]);
    assert_eq!(
        fs.lookup("/home/u/l"),
        Some(Entry::Link {
            target: "/home/u/t".to_string()
        })
    );
    assert_eq!(fs.lookup("/home/u/c"), Some(Entry::File { content: 6 }));
}

#[test]
fn parse_answer_accepts_the_four_words() {
    assert_eq!(parse_answer("yes"), Some(true));
    assert_eq!(parse_answer("Y"), Some(true));
    assert_eq!(parse_answer("YES"), Some(true));
    assert_eq!(parse_answer("no"), Some(false));
    assert_eq!(parse_answer("N"), Some(false));
    assert_eq!(parse_answer("nope"), None);
    assert_eq!(parse_answer(""), None);
    assert_eq!(parse_answer("yes "), None);
}
