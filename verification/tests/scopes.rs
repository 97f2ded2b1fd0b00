use file_snapshots::manifest::Moment;
use file_snapshots::rules::{
    builder_of, compile, compile_rules, ignore_lines, is_ignored, is_ignored_by_any, load_ignore,
    rules_if_built, IgnoreRules, Matcher, SNAPSHOT_IGNORE_FILENAME,
};
use file_snapshots::scope::{
    enters_recent, enters_scan, find_workspace_root, git_tracked_files, index_path, ordered_paths,
    recent_files, tracked_files, workspace_files, IndexEntry, RootScan, Walked, RECENT_LIMIT,
    RECENT_MAX_FILE_BYTES,
};

fn walked(path: &str, secs: i64) -> Walked {
    Walked {
        path: path.to_string(),
        is_file: true,
        size: Some(1),
        modified: Some(Moment { secs, nanos: 0 }),
    }
}

fn strings(list: &[&str]) -> Vec<String> {
    list.iter().map(|s| s.to_string()).collect()
}

#[test]
fn walk_up_finds_marker() {
    let dirs = ["/tmp/x/proj/.codex"];
    let probe = |p: &str| dirs.contains(&p);
    let markers = vec![".codex".to_string()];
    assert_eq!(
        find_workspace_root("/tmp/x/proj/a/b/c", &markers, &probe),
        Some("/tmp/x/proj".to_string()),
        "nearest ancestor with marker wins"
    );
    assert_eq!(find_workspace_root("/tmp/elsewhere", &markers, &probe), None);
}

#[test]
fn a_search_upward_ends_at_the_root() {
    let asked = std::cell::RefCell::new(Vec::new());
    let probe = |p: &str| {
        asked.borrow_mut().push(p.to_string());
        false
    };
    let markers = strings(&[".git", ".hg"]);
    assert_eq!(find_workspace_root("/a/b", &markers, &probe), None);
    assert_eq!(
        *asked.borrow(),
        strings(&["/a/b/.git", "/a/b/.hg", "/a/.git", "/a/.hg", "/.git", "/.hg"])
    );
    asked.borrow_mut().clear();
    assert_eq!(find_workspace_root("a", &strings(&["m"]), &probe), None);
    assert_eq!(*asked.borrow(), strings(&["a/m", "m"]));
    let here = |p: &str| p == "/a/b/.hg" || p == "/.git";
    assert_eq!(find_workspace_root("/a/b", &markers, &here), Some("/a/b".to_string()));
}

#[test]
fn workspace_files_respect_snapshot_ignore_and_skip_git() {
    let root = "/ws";
    let ignore_file = format!("{root}/{SNAPSHOT_IGNORE_FILENAME}");
    let all: Vec<Walked> = [
        "/ws/keep.txt",
        "/ws/skip.log",
        "/ws/sub/also.log",
        "/ws/sub/keep2.txt",
        "/ws/.git/HEAD",
        ignore_file.as_str(),
    ]
    .iter()
    .map(|p| walked(p, 0))
    .collect();
    let rules = load_ignore(root, Some(b"*.log\n"));

    let files = workspace_files(root, &rules, &all, /*include_hidden*/ false);
    let names: Vec<&str> = files.iter().map(|p| p.strip_prefix("/ws/").unwrap()).collect();
    assert_eq!(
        names,
        vec!["keep.txt", "sub/keep2.txt"],
        "logs ignored; .git and other dot-entries skipped, the ignore file among them"
    );

    // Opting in reaches hidden entries, but never `.git`.
    let with_hidden = workspace_files(root, &rules, &all, /*include_hidden*/ true);
    let names: Vec<&str> = with_hidden.iter().map(|p| p.strip_prefix("/ws/").unwrap()).collect();
    assert!(names.contains(&SNAPSHOT_IGNORE_FILENAME));
    assert!(
        names.iter().all(|name| !name.starts_with(".git/")),
        "repository internals are never scanned: {names:?}"
    );
}

#[test]
fn recency_is_bounded_by_count_size_and_churn() {
    let root = "/ws";
    let mut all = Vec::new();
    for i in 0..(RECENT_LIMIT + 20) {
        all.push(walked(&format!("/ws/src{i}.rs"), i as i64));
    }
    all.push(walked("/ws/target/artifact.o", 1_000_000));
    all.push(Walked { size: Some(RECENT_MAX_FILE_BYTES + 1), ..walked("/ws/huge.bin", 1_000_000) });

    let rules = load_ignore(root, None);
    let picked = recent_files(root, &rules, &all, /*include_hidden*/ false);

    assert_eq!(picked.len(), RECENT_LIMIT, "count is capped");
    assert!(
        !picked.iter().any(|p| p.ends_with("artifact.o")),
        "churn directories are never descended into"
    );
    assert!(
        !picked.iter().any(|p| p.ends_with("huge.bin")),
        "oversized files are left out however recent"
    );
    assert_eq!(picked[0], format!("/ws/src{}.rs", RECENT_LIMIT + 19), "the latest comes first");
    assert_eq!(picked[RECENT_LIMIT - 1], "/ws/src20.rs");
}

#[test]
fn the_latest_come_first_and_ties_keep_the_order_of_the_walk() {
    let rules = load_ignore("/ws", Some(b"*.tmp"));
    let mut all = vec![
        walked("/ws/b", 5),
        walked("/ws/a", 5),
        walked("/ws/new", 9),
        walked("/ws/old", 1),
        walked("/ws/x.tmp", 99),
        walked("/ws/.hidden", 99),
        walked("/ws/node_modules/m.js", 99),
        walked("/ws/Pods/p.h", 99),
        walked("/elsewhere/f", 99),
    ];
    all.push(Walked { is_file: false, ..walked("/ws/dir", 99) });
    all.push(Walked { size: None, ..walked("/ws/nosize", 99) });
    all.push(Walked { modified: None, ..walked("/ws/notime", 99) });
    all.push(Walked { size: Some(RECENT_MAX_FILE_BYTES), ..walked("/ws/big", 2) });
    assert_eq!(
        recent_files("/ws", &rules, &all, false),
        strings(&["/ws/new", "/ws/b", "/ws/a", "/ws/big", "/ws/old"])
    );
    assert_eq!(recent_files("/ws", &rules, &all, true)[0], "/ws/.hidden");
}

#[test]
fn a_directory_without_a_repository_contributes_no_git_partition() {
    let rules = load_ignore("/ws", None);
    assert!(git_tracked_files("/ws", &Vec::new(), &rules).is_empty());
}

fn listed(path: &[u8], is_file: bool) -> IndexEntry {
    IndexEntry { path: path.to_vec(), is_file }
}

#[test]
fn the_index_contributes_files_that_are_there_and_not_ignored() {
    let rules = load_ignore("/ws", Some(b"gen/\n"));
    let entries = vec![
        listed(b"src/main.rs", true),
        listed(b"gone.rs", false),
        listed(b"bad-\xff.rs", true),
        listed(b"gen/out.rs", true),
        listed("\u{e9}.txt".as_bytes(), true),
    ];
    assert_eq!(
        git_tracked_files("/ws", &entries, &rules),
        strings(&["/ws/src/main.rs", "/ws/\u{e9}.txt"])
    );
    assert_eq!(index_path("/ws", &b"a/b".to_vec()), Some("/ws/a/b".to_string()));
    assert_eq!(index_path("/ws", &vec![0xff]), None);
}

#[test]
fn ignored_paths_are_protected_symmetrically() {
    let rules = load_ignore("/ws", Some(b"secret/**\n"));
    assert!(is_ignored(&rules, "/ws/secret/key.pem"));
    assert!(!is_ignored(&rules, "/ws/src/main.rs"));
}

#[test]
fn ignore_files_have_the_syntax_of_gitignore() {
    let rules = load_ignore(
        "/ws",
        Some("\u{feff}*.log\r\n# comment\n!keep.log\n/top.txt\nbuild/\n[bad\n".as_bytes()),
    );
    assert!(is_ignored(&rules, "/ws/a.log"));
    assert!(is_ignored(&rules, "/ws/deep/down/a.log"));
    assert!(!is_ignored(&rules, "/ws/keep.log"));
    assert!(is_ignored(&rules, "/ws/top.txt"));
    assert!(!is_ignored(&rules, "/ws/sub/top.txt"));
    assert!(is_ignored(&rules, "/ws/build/x"), "a directory takes what is under it with it");
    assert!(!is_ignored(&rules, "/ws/# comment"));
    // Outside the directory of the rules nothing is theirs to ignore.
    assert!(!is_ignored(&rules, "/other/a.log"));
    assert!(!is_ignored(&rules, "/wsx/a.log"));
    assert!(!is_ignored(&rules, "a.log"));
}

#[test]
fn rules_of_every_kind_of_root() {
    let log = strings(&["*.log"]);
    assert!(is_ignored(&compile_rules("", &log), "a.log"));
    assert!(is_ignored(&compile_rules("", &log), "./x/a.log"));
    assert!(is_ignored(&compile_rules("", &log), "/x/a.log"));
    assert!(is_ignored(&compile_rules("/", &log), "/a.log"));
    assert!(is_ignored(&compile_rules("rel/dir", &log), "rel//dir/./a.log"));
    assert!(!is_ignored(&compile_rules("/ws", &log), "/ws"));
    assert!(!is_ignored(&compile_rules("/ws", &Vec::new()), "/ws/a.log"));
}

#[test]
fn lines_that_could_not_be_compiled_ignore_nothing() {
    let none: IgnoreRules = rules_if_built("/ws", None);
    assert!(!is_ignored(&none, "/ws/a.log"));
    let some = rules_if_built("/ws", compile(&builder_of(&strings(&["*.log"]))));
    assert!(is_ignored(&some, "/ws/a.log"));
    let both = vec![none, some];
    assert!(is_ignored_by_any(&both, "/ws/a.log"));
    assert!(!is_ignored_by_any(&both, "/ws/a.txt"));
    assert!(!is_ignored_by_any(&Vec::new(), "/ws/a.log"));
}

#[test]
fn the_lines_of_an_ignore_file() {
    assert_eq!(ignore_lines(None), Vec::<String>::new());
    assert_eq!(ignore_lines(Some(b"")), Vec::<String>::new());
    assert_eq!(ignore_lines(Some(b"a\nb")), strings(&["a", "b"]));
    assert_eq!(ignore_lines(Some(b"a\r\n\r\nb\r")), strings(&["a", "", "b\r"]));
    assert_eq!(ignore_lines(Some(b"\n")), strings(&[""]));
    assert_eq!(ignore_lines(Some(b"a\n\xff\nb\n")), strings(&["a"]), "up to what is not text");
    assert_eq!(
        ignore_lines(Some("\u{feff}\u{feff}a\n\u{feff}b".as_bytes())),
        strings(&["a", "\u{feff}b"])
    );
}

#[test]
fn names_decide_what_a_walk_enters() {
    assert!(enters_scan("src", false));
    assert!(!enters_scan(".git", false));
    assert!(!enters_scan(".git", true));
    assert!(!enters_scan(".env", false));
    assert!(enters_scan(".env", true));
    assert!(enters_scan("target", false));
    for name in [
        "node_modules", "target", "Pods", "dist", "build", "out", "vendor", "__pycache__", ".venv", "venv",
    ] {
        assert!(!enters_recent(name, true), "{name}");
    }
    assert!(enters_recent("src", false));
}

#[test]
fn paths_are_ordered_by_component_and_kept_once() {
    assert_eq!(
        ordered_paths(&strings(&["/b", "/a.txt", "/a/b", "/a", "/a//b/.", "x", "./x", "../y"])),
        strings(&["/a", "/a/b", "/a.txt", "/b", "./x", "../y", "x"])
    );
}

fn scan(root: &str, ignore: Option<&[u8]>, index: Vec<IndexEntry>, walk: Vec<Walked>) -> RootScan {
    RootScan {
        root: root.to_string(),
        ignore_file: ignore.map(|b| b.to_vec()),
        workdir: root.to_string(),
        index,
        walked: walk,
    }
}

#[test]
fn a_capture_looks_at_three_partitions() {
    let scans = vec![
        scan(
            "/one",
            Some(b"*.log\n"),
            vec![listed(b"src/lib.rs", true), listed(b"x.log", true)],
            vec![walked("/one/notes.md", 3), walked("/one/src/lib.rs", 2), walked("/one/y.log", 9)],
        ),
        scan("/two", None, Vec::new(), vec![walked("/two/z.log", 1), walked("/two/.env", 1)]),
    ];
    assert_eq!(
        tracked_files(&scans, &strings(&["/far/edited.cfg", "/one//notes.md"]), false),
        strings(&["/far/edited.cfg", "/one/notes.md", "/one/src/lib.rs", "/two/z.log"])
    );
    assert_eq!(
        tracked_files(&Vec::new(), &strings(&["/k"]), false),
        strings(&["/k"])
    );
}

#[test]
fn rules_in_force_are_those_of_the_lines() {
    let built = compile(&builder_of(&strings(&["# none", "*.log", "!keep.log"])));
    let rules = rules_if_built("a", built);
    assert!(is_ignored(&rules, "a/x.log"));
    assert!(!is_ignored(&rules, "a/keep.log"));
    // A rule from the top of the directory means that directory, not its name.
    let rules = rules_if_built("a", compile(&builder_of(&strings(&["/b"]))));
    assert!(is_ignored(&rules, "a//b"));
    assert!(is_ignored(&rules, "a/b"));
    assert!(!is_ignored(&rules, "a/a/b"));
    assert!(!is_ignored(&rules_if_built("/ws", Some(Matcher::empty())), "/ws/x.log"));
}

#[test]
fn a_known_path_that_is_ignored_now_is_not_looked_at() {
    let scans = vec![scan("/ws", Some(b"*.key\n"), Vec::new(), vec![walked("/ws/a.txt", 1)])];
    let known = strings(&["/ws/old.key", "/ws//sub/./other.key", "/far/kept.key", "/ws/b.txt"]);
    assert_eq!(
        tracked_files(&scans, &known, false),
        strings(&["/far/kept.key", "/ws/a.txt", "/ws/b.txt"])
    );
}

#[test]
fn an_outer_roots_rules_hold_in_an_inner_root() {
    let scans = vec![
        scan("/ws", Some(b"*.log\n"), Vec::new(), Vec::new()),
        scan(
            "/ws/sub",
            None,
            vec![listed(b"x.log", true)],
            vec![walked("/ws/sub/y.log", 2), walked("/ws/sub/z.txt", 1)],
        ),
    ];
    assert_eq!(tracked_files(&scans, &Vec::new(), false), strings(&["/ws/sub/z.txt"]));
}
