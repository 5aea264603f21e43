use backup_service::backup::{split_remote, Backup, Credentials, Storage};
use backup_service::paths::join_path;
use backup_service::queue::{WorkQueue, WorkerAction};

fn credentials(threads: u8) -> Credentials {
    Credentials::new(
        "ftp.example.org:21".to_string(),
        "user".to_string(),
        "SECRET-REDACTED".to_string(),
        "/var/backups".to_string(),
        "/root".to_string(),
        threads,
    )
}

#[test]
fn three_workers_download_seven_files_once_each() {
    let files: Vec<String> = (1..=7).map(|i| format!("f{}.txt", i)).collect();
    let mut queue = WorkQueue::new(files.clone());
    let mut done = vec![false; 3];
    let mut downloads: Vec<(usize, String, String)> = Vec::new();
    let mut quits = 0;
    while done.iter().any(|d| !d) {
        for w in 0..3 {
            if done[w] {
                continue;
            }
            match queue.next_job("//root") {
                WorkerAction::Download { remote, local } => downloads.push((w, remote, local)),
                WorkerAction::Quit => {
                    done[w] = true;
                    quits += 1;
                }
            }
        }
    }
    assert_eq!(downloads.len(), 7);
    assert_eq!(quits, 3);
    let mut locals: Vec<String> = downloads.iter().map(|d| d.2.clone()).collect();
    locals.sort();
    assert_eq!(locals, files);
    for (_, remote, local) in &downloads {
        assert_eq!(remote, &format!("//root/{}", local));
    }
    assert!(queue.is_empty());
    assert!(matches!(queue.next_job("//root"), WorkerAction::Quit));
}

#[test]
fn pop_takes_the_last_path_and_then_none() {
    let mut queue = WorkQueue::new(vec!["a".to_string(), "b".to_string()]);
    assert_eq!(queue.len(), 2);
    assert_eq!(queue.pop(), Some("b".to_string()));
    assert_eq!(queue.pop(), Some("a".to_string()));
    assert_eq!(queue.pop(), None);
    assert_eq!(queue.pop(), None);
    assert_eq!(queue.len(), 0);
}

#[test]
fn sessions_besides_the_mapping_one() {
    assert_eq!(credentials(3).extra_sessions(), 2);
    assert_eq!(credentials(1).extra_sessions(), 0);
    assert_eq!(credentials(0).extra_sessions(), 0);
    assert_eq!(credentials(255).extra_sessions(), 254);
}

#[test]
fn remote_directory_splits_at_last_slash() {
    let t = split_remote("/root");
    assert_eq!(t.root, "//root");
    assert_eq!(t.wd, "/");
    assert_eq!(t.name, "root");

    let t = split_remote("/srv/data/site");
    assert_eq!(t.root, "//srv/data/site");
    assert_eq!(t.wd, "//srv/data");
    assert_eq!(t.name, "site");

    let t = split_remote("site");
    assert_eq!(t.root, "/site");
    assert_eq!(t.wd, "/");
    assert_eq!(t.name, "site");

    let t = split_remote("a/");
    assert_eq!(t.wd, "/a");
    assert_eq!(t.name, "");
}

#[test]
fn storage_paths_are_rooted_at_the_run() {
    let s = Storage::at("/var/backups", "2026-10-18_22-30");
    assert_eq!(s.path, "/var/backups/osb-2026-10-18_22-30");
    assert_eq!(s.file_path("a/x.txt"), "/var/backups/osb-2026-10-18_22-30/a/x.txt");
    let c = s.clone();
    assert_eq!(c.path, s.path);
}

#[test]
fn backup_run_root_lies_under_out() {
    let backup = Backup::new(credentials(2));
    assert!(backup.storage.path.starts_with("/var/backups/osb-"));
    assert!(backup.storage.path.len() > "/var/backups/osb-".len());
    assert_eq!(backup.credentials.threads, 2);
    let mapper = backup.map("/", "root");
    assert!(!mapper.is_done());
}

#[test]
fn join_puts_one_separator() {
    assert_eq!(join_path("//root", "a/x.txt"), "//root/a/x.txt");
    assert_eq!(join_path("", "x"), "/x");
}
