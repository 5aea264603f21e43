use backup_service::listing::{classify, contains, ends_with, is_backup_artifact, kind_of, ItemType, ListingError};
use backup_service::mapper::{MapAction, Mapper};

/// A remote tree held as listings keyed by the listed path: for each
/// directory, its plain names and its detailed lines.
struct FakeRemote {
    dirs: Vec<(String, Vec<String>, Vec<String>)>,
}

impl FakeRemote {
    fn listing(&self, path: &str) -> (Vec<String>, Vec<String>) {
        for (p, names, detailed) in &self.dirs {
            if p == path {
                return (names.clone(), detailed.clone());
            }
        }
        panic!("no such directory: {}", path);
    }
}

fn file_line(name: &str) -> String {
    format!("10-18-26  10:00PM                 1234 {}", name)
}

fn dir_line(name: &str) -> String {
    format!("10-18-26  10:00PM       <DIR>          {}", name)
}

/// Runs the mapper to its end; returns the manifest and the actions taken.
fn drive(remote: &FakeRemote, wd: &str, name: &str) -> (Vec<String>, Vec<String>) {
    let mut mapper = Mapper::new(wd, name);
    let mut cwd = String::new();
    let mut log: Vec<String> = Vec::new();
    loop {
        match mapper.next_action() {
            MapAction::MakeDir(d) => log.push(format!("mkdir {}", d)),
            MapAction::Navigate(p) => {
                log.push(format!("cd {}", p));
                cwd = p;
            }
            MapAction::List(n) => {
                log.push(format!("list {}", n));
                let (names, detailed) = remote.listing(&format!("{}/{}", cwd, n));
                mapper.listed(&names, &detailed).unwrap();
            }
            MapAction::Done => break,
        }
    }
    assert!(mapper.is_done());
    (mapper.into_manifest(), log)
}

fn sample_remote() -> FakeRemote {
    FakeRemote {
        dirs: vec![
            (
                "//root".to_string(),
                vec!["a".to_string(), "y.txt".to_string()],
                vec![dir_line("a"), file_line("y.txt")],
            ),
            ("//root/a".to_string(), vec!["x.txt".to_string()], vec![file_line("x.txt")]),
        ],
    }
}

#[test]
fn nested_directory_and_root_file_are_mapped() {
    let (manifest, log) = drive(&sample_remote(), "/", "root");
    assert_eq!(manifest, vec!["a/x.txt".to_string(), "y.txt".to_string()]);
    let expected: Vec<String> = vec!["cd /", "list root", "mkdir a", "cd //root", "list a", "cd //root"]
        .into_iter()
        .map(|l| l.to_string())
        .collect();
    assert_eq!(log, expected);
    let mkdir = log.iter().position(|l| l == "mkdir a").unwrap();
    let list_a = log.iter().position(|l| l == "list a").unwrap();
    assert!(mkdir < list_a);
}

#[test]
fn backup_artifact_at_root_is_excluded() {
    let remote = FakeRemote {
        dirs: vec![(
            "//root".to_string(),
            vec!["db.backup".to_string(), "db.sql".to_string()],
            vec![file_line("db.backup"), file_line("db.sql")],
        )],
    };
    let (manifest, _) = drive(&remote, "/", "root");
    assert_eq!(manifest, vec!["db.sql".to_string()]);
}

#[test]
fn mapping_twice_gives_equal_manifests() {
    let (first, _) = drive(&sample_remote(), "/", "root");
    let (second, _) = drive(&sample_remote(), "/", "root");
    assert_eq!(first, second);
}

#[test]
fn deep_tree_is_mapped_depth_first() {
    let remote = FakeRemote {
        dirs: vec![
            (
                "/base/top".to_string(),
                vec!["b".to_string(), "c".to_string(), "z".to_string()],
                vec![dir_line("b"), file_line("c"), dir_line("z")],
            ),
            (
                "/base/top/b".to_string(),
                vec!["d".to_string(), "e.backup".to_string()],
                vec![dir_line("d"), file_line("e.backup")],
            ),
            ("/base/top/b/d".to_string(), vec!["f".to_string()], vec![file_line("f")]),
            ("/base/top/z".to_string(), vec![], vec![]),
        ],
    };
    let (manifest, log) = drive(&remote, "/base", "top");
    assert_eq!(manifest, vec!["b/d/f".to_string(), "c".to_string()]);
    assert!(log.contains(&"mkdir b".to_string()));
    assert!(log.contains(&"mkdir b/d".to_string()));
    assert!(log.contains(&"mkdir z".to_string()));
}

#[test]
fn empty_root_gives_empty_manifest() {
    let remote = FakeRemote { dirs: vec![("/r/x".to_string(), vec![], vec![])] };
    let (manifest, log) = drive(&remote, "/r", "x");
    assert!(manifest.is_empty());
    assert_eq!(log, vec!["cd /r".to_string(), "list x".to_string()]);
}

#[test]
fn mismatched_listing_is_refused_and_nothing_changes() {
    let mut mapper = Mapper::new("/", "root");
    assert!(matches!(mapper.next_action(), MapAction::Navigate(_)));
    assert!(matches!(mapper.next_action(), MapAction::List(_)));
    let names = vec!["a".to_string(), "b".to_string()];
    let detailed = vec![file_line("a")];
    assert_eq!(mapper.listed(&names, &detailed), Err(ListingError::CountMismatch));
    assert!(mapper.awaiting_listing());
    let detailed = vec![file_line("a"), file_line("b")];
    assert_eq!(mapper.listed(&names, &detailed), Ok(()));
    assert!(!mapper.awaiting_listing());
}

#[test]
fn classify_pairs_names_with_kinds() {
    let names = vec!["docs".to_string(), "notes.txt".to_string()];
    let detailed = vec![dir_line("docs"), file_line("notes.txt")];
    let entries = classify(&names, &detailed).unwrap();
    assert_eq!(entries.len(), 2);
    assert_eq!(entries[0].name, "docs");
    assert_eq!(entries[0].kind, ItemType::Dir);
    assert_eq!(entries[1].name, "notes.txt");
    assert_eq!(entries[1].kind, ItemType::File);
    assert!(matches!(classify(&names, &vec![]), Err(ListingError::CountMismatch)));
}

#[test]
fn directory_marker_and_suffix_checks() {
    assert_eq!(kind_of("drwx <DIR> x"), ItemType::Dir);
    assert_eq!(kind_of("<DIR"), ItemType::File);
    assert_eq!(kind_of(""), ItemType::File);
    assert!(contains("abc", ""));
    assert!(contains("abc", "bc"));
    assert!(!contains("abc", "abcd"));
    assert!(ends_with("x.tar", ".tar"));
    assert!(!ends_with("x.tar.gz", ".tar"));
    assert!(is_backup_artifact("db.backup"));
    assert!(is_backup_artifact(".backup"));
    assert!(!is_backup_artifact("db.backup.old"));
    assert!(!is_backup_artifact("backup"));
    assert_eq!(ItemType::File.label(), "FILE");
    assert_eq!(ItemType::Dir.label(), "DIR");
}
