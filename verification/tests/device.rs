use std::collections::BTreeMap;

use rehydrate::device::commit::{Commit, CommitStep};
use rehydrate::device::delete::{DeleteStep, Deletion};
use rehydrate::device::fetch::{Fetch, FetchStep};
use rehydrate::device::host_key::{check_login, pin_warning, HostKeyOutcome};
use rehydrate::device::listing::{Listing, ListingStep};
use rehydrate::device::push::{Push, PushPhase};
use rehydrate::device::reap::{Reap, ReapStep};
use rehydrate::device::sftp::{
    backup_path, check_size, command_output, parent_dir, sftp_err, staged_path, SftpFailure,
};
use rehydrate::device::trash::{backed_up, stranded_backups, Purge, PurgeStep};
use rehydrate::device::{
    DeviceError, DeviceInfo, DirEntry, RemoteEntry, RemoteEntryKind, RemoteFile, SshConfig,
};
use russh_sftp::client::error::Error as SftpError;
use russh_sftp::protocol::{Status, StatusCode};

fn status_err(code: StatusCode, message: &str) -> SftpError {
    SftpError::Status(Status {
        id: 1,
        status_code: code,
        error_message: message.to_string(),
        language_tag: String::new(),
    })
}

#[test]
fn typed_no_such_file_status_maps_to_not_found() {
    let e = status_err(StatusCode::NoSuchFile, "No such file");
    assert!(matches!(sftp_err("read_dir", "/some/path", e), DeviceError::NotFound(_)));
}

#[test]
fn legacy_camelcase_no_such_file_string_maps_to_not_found() {
    let e = SftpError::IO("NoSuchFile: somewhere".into());
    assert!(matches!(sftp_err("read_dir", "/some/path", e), DeviceError::NotFound(_)));
}

#[test]
fn enoent_in_message_maps_to_not_found() {
    let e = SftpError::IO("got ENOENT from kernel".into());
    assert!(matches!(sftp_err("read_dir", "/some/path", e), DeviceError::NotFound(_)));
}

#[test]
fn permission_denied_status_is_not_classified_as_not_found() {
    let e = status_err(StatusCode::PermissionDenied, "Permission denied");
    assert!(matches!(sftp_err("read_dir", "/some/path", e), DeviceError::Other(_)));
}

#[test]
fn unrelated_io_error_maps_to_other() {
    let e = SftpError::IO("connection reset".into());
    match sftp_err("read_dir", "/some/path", e) {
        DeviceError::Other(m) => assert_eq!(m, "read_dir /some/path: I/O: connection reset"),
        other => panic!("expected Other, got {other:?}"),
    }
}

#[test]
fn status_errors_keep_their_code_and_words() {
    let f = SftpFailure::of(&status_err(StatusCode::NoSuchFile, "gone"));
    assert!(f.no_such_file);
    assert_eq!(f.message, "No such file: gone");
    let f = SftpFailure::of(&status_err(StatusCode::Failure, "no"));
    assert!(!f.no_such_file);
}

#[test]
fn the_default_config_is_the_usb_endpoint() {
    let c = SshConfig::default();
    assert_eq!(c.host, "10.11.99.1");
    assert_eq!(c.port, 22);
    assert_eq!(c.user, "root");
    assert_eq!(c.xochitl_dir, "/home/root/.local/share/remarkable/xochitl");
    assert_eq!(c.clone().endpoint(), "10.11.99.1:22");
}

#[test]
fn half_written_files_have_names_of_their_own() {
    assert_eq!(staged_path("/x/a.rm"), "/x/a.rm.rehydrate-tmp");
    assert_eq!(backup_path("/x/a.rm"), "/x/a.rm.rehydrate-bak");
    assert_eq!(parent_dir("/x/y/a.rm").as_deref(), Some("/x/y"));
    assert_eq!(parent_dir("/a.rm"), None);
    assert_eq!(parent_dir("a.rm"), None);
    assert_eq!(parent_dir("x/"), Some("x".to_string()));
}

#[test]
fn command_output_is_trimmed_text() {
    assert_eq!(command_output(b" rM2 \n"), "rM2");
    assert_eq!(command_output(&[0x41, 0xff, 0x42]), "A\u{fffd}B");
    assert!(check_size("/a", vec![0; 4]).is_ok());
    let info = DeviceInfo::of_outputs("", Some(" sn \n"), Some("  "));
    assert_eq!(info.model, "reMarkable");
    assert_eq!(info.serial.as_deref(), Some("sn"));
    assert_eq!(info.software_version, None);
    let info = DeviceInfo::of_outputs("rM2", None, Some("3.20"));
    assert_eq!((info.model.as_str(), info.serial), ("rM2", None));
    assert_eq!(info.software_version.as_deref(), Some("3.20"));
}

/// A tablet in memory: files by path. Directories are the prefixes of paths.
struct Tablet {
    files: BTreeMap<String, Vec<u8>>,
    refuse: Vec<String>,
}

impl Tablet {
    fn new(files: &[(&str, &str)]) -> Tablet {
        Tablet {
            files: files.iter().map(|(p, b)| (p.to_string(), b.as_bytes().to_vec())).collect(),
            refuse: Vec::new(),
        }
    }

    fn list(&self, dir: &str) -> Result<Vec<DirEntry>, DeviceError> {
        let prefix = format!("{dir}/");
        let mut names: BTreeMap<String, bool> = BTreeMap::new();
        for path in self.files.keys() {
            if let Some(rest) = path.strip_prefix(&prefix) {
                match rest.split_once('/') {
                    Some((name, _)) => {
                        names.insert(name.to_string(), true);
                    }
                    None => {
                        names.entry(rest.to_string()).or_insert(false);
                    }
                }
            }
        }
        if names.is_empty() {
            return Err(DeviceError::NotFound(dir.to_string()));
        }
        Ok(names
            .into_iter()
            .filter(|(name, _)| !name.is_empty())
            .map(|(name, is_dir)| DirEntry { name, is_dir, is_symlink: false })
            .collect())
    }

    fn read(&self, path: &str) -> Result<Vec<u8>, DeviceError> {
        match self.files.get(path) {
            Some(b) => Ok(b.clone()),
            None => Err(DeviceError::NotFound(path.to_string())),
        }
    }

    fn remove(&mut self, path: &str) -> Result<(), DeviceError> {
        if self.refuse.iter().any(|p| p == path) {
            return Err(DeviceError::Other(format!("remove_file {path}: denied")));
        }
        match self.files.remove(path) {
            Some(_) => Ok(()),
            None => Err(DeviceError::NotFound(path.to_string())),
        }
    }

    fn rename(&mut self, from: &str, to: &str) -> Result<(), SftpFailure> {
        let denied = self.refuse.iter().any(|p| p == from);
        if denied || self.files.contains_key(to) || !self.files.contains_key(from) {
            return Err(SftpFailure { no_such_file: false, message: format!("no way to {to}") });
        }
        let bytes = self.files.remove(from).unwrap();
        self.files.insert(to.to_string(), bytes);
        Ok(())
    }

    fn commit(&mut self, path: &str) -> Result<(), DeviceError> {
        let mut work = Commit::new(path);
        loop {
            match work.step() {
                CommitStep::Probe(place) => {
                    let present = self.files.contains_key(&work.path_of(place));
                    work.probed(present);
                }
                CommitStep::Remove(place) => {
                    let path = work.path_of(place);
                    let r = self.remove(&path).map_err(|_| SftpFailure {
                        no_such_file: true,
                        message: "gone".to_string(),
                    });
                    work = work.done(r);
                }
                CommitStep::Rename { from, to } => {
                    let r = self.rename(&work.path_of(from), &work.path_of(to));
                    work = work.done(r);
                }
                CommitStep::Finished => return work.finish(),
            }
        }
    }

    fn text(&self, path: &str) -> Option<&str> {
        self.files.get(path).map(|b| std::str::from_utf8(b).unwrap())
    }

    fn delete(&mut self, uuid: &str) -> Result<(), DeviceError> {
        let mut work = Deletion::new("/x", uuid);
        loop {
            let step = match work.step() {
                None => return work.finish(),
                Some(DeleteStep::ListRoot) => "/x".to_string(),
                Some(DeleteStep::ListDir(p)) => p.clone(),
                Some(DeleteStep::RemoveFile(p)) => {
                    let p = p.clone();
                    let r = self.remove(&p);
                    work.removed(r);
                    continue;
                }
                Some(DeleteStep::RemoveDir(_)) => {
                    work.removed(Ok(()));
                    continue;
                }
            };
            work.listed(self.list(&step));
        }
    }

    fn reap(&mut self, uuid: &str, desired: &[&str]) -> (Result<(), DeviceError>, Vec<String>) {
        let mut gone = Vec::new();
        let desired = desired.iter().map(|s| s.to_string()).collect();
        let mut work = Reap::new("/x", uuid, desired);
        loop {
            match work.step() {
                ReapStep::List(p) => work = work.listed(self.list(&p)),
                ReapStep::RemoveFile(p) => {
                    let r = self.remove(&p);
                    work = work.removed(r);
                }
                ReapStep::RemoveDir(p) => {
                    gone.push(p);
                    work = work.removed(Ok(()));
                }
                ReapStep::Finished => return (work.finish(), gone),
            }
        }
    }

    fn fetch(&self, uuid: &str) -> Result<Vec<RemoteFile>, DeviceError> {
        let mut work = Fetch::new("/x", uuid);
        loop {
            match work.step() {
                FetchStep::Read(p) => work = work.read(self.read(&p)),
                FetchStep::List(p) => work = work.listed(self.list(&p)),
                FetchStep::Finished => return work.finish(),
            }
        }
    }

    fn entries(&self) -> Result<Vec<RemoteEntry>, DeviceError> {
        let mut work = Listing::new("/x");
        loop {
            match work.step() {
                ListingStep::List(p) => work = work.listed(self.list(&p)),
                ListingStep::Read(p) => work = work.read(self.read(&p)),
                ListingStep::Finished => return work.finish(),
            }
        }
    }
}

#[test]
fn a_staged_file_takes_its_place() {
    let mut t = Tablet::new(&[("/x/a", "old"), ("/x/a.rehydrate-tmp", "new")]);
    t.commit("/x/a").unwrap();
    assert_eq!(t.text("/x/a"), Some("new"));
    assert_eq!(t.files.len(), 1);

    let mut t = Tablet::new(&[("/x/a.rehydrate-tmp", "new")]);
    t.commit("/x/a").unwrap();
    assert_eq!(t.text("/x/a"), Some("new"));
    assert_eq!(t.files.len(), 1);
}

#[test]
fn a_leftover_backup_is_dropped_or_recovered() {
    let mut t = Tablet::new(&[
        ("/x/a", "old"),
        ("/x/a.rehydrate-bak", "older"),
        ("/x/a.rehydrate-tmp", "new"),
    ]);
    t.commit("/x/a").unwrap();
    assert_eq!(t.text("/x/a"), Some("new"));
    assert_eq!(t.files.len(), 1);

    let mut t = Tablet::new(&[("/x/a.rehydrate-bak", "saved")]);
    match t.commit("/x/a") {
        Err(DeviceError::Other(m)) => assert_eq!(m, "rename(tmp→live) /x/a: no way to /x/a"),
        other => panic!("expected Other, got {other:?}"),
    }
    assert_eq!(t.text("/x/a"), Some("saved"));
}

#[test]
fn a_failed_promotion_brings_the_previous_file_back() {
    let mut t = Tablet::new(&[("/x/a", "old"), ("/x/a.rehydrate-tmp", "new")]);
    t.refuse = vec!["/x/a.rehydrate-tmp".to_string()];
    assert!(t.commit("/x/a").is_err());
    assert_eq!(t.text("/x/a"), Some("old"));
    assert_eq!(t.text("/x/a.rehydrate-bak"), None);

    t.refuse.push("/x/a.rehydrate-bak".to_string());
    match t.commit("/x/a") {
        Err(DeviceError::Other(m)) => assert_eq!(
            m,
            "promotion failed for /x/a (no way to /x/a); rollback also failed (no way to /x/a); \
             previous file preserved at /x/a.rehydrate-bak"
        ),
        other => panic!("expected Other, got {other:?}"),
    }
    assert_eq!(t.text("/x/a.rehydrate-bak"), Some("old"));

    t.refuse.clear();
    t.commit("/x/a").unwrap();
    assert_eq!(t.text("/x/a"), Some("new"));
    assert_eq!(t.files.len(), 1);
}

#[test]
fn deleting_a_document_takes_all_of_it_and_nothing_else() {
    let mut t = Tablet::new(&[
        ("/x/u1.metadata", "{}"),
        ("/x/u1.content", "{}"),
        ("/x/u1/p.rm", "1"),
        ("/x/u1.thumbnails/p.png", "2"),
        ("/x/u10.metadata", "{}"),
        ("/x/u2/p.rm", "3"),
    ]);
    t.delete("u1").unwrap();
    let left: Vec<&String> = t.files.keys().collect();
    assert_eq!(left, vec!["/x/u10.metadata", "/x/u2/p.rm"]);
    t.delete("u1").unwrap();
}

#[test]
fn a_removal_that_fails_is_reported_after_the_rest() {
    let mut t = Tablet::new(&[("/x/u1.a", "1"), ("/x/u1.b", "2"), ("/x/u1/p.rm", "3")]);
    t.refuse = vec!["/x/u1.a".to_string(), "/x/u1/p.rm".to_string()];
    match t.delete("u1") {
        Err(DeviceError::Other(m)) => assert_eq!(m, "remove_file /x/u1.a: denied"),
        other => panic!("expected Other, got {other:?}"),
    }
    assert!(!t.files.contains_key("/x/u1.b"));
    let gone = Tablet::new(&[]).list("/x");
    let mut work = Deletion::new("/x", "u1");
    work.listed(gone);
    assert!(matches!(work.finish(), Err(DeviceError::NotFound(_))));
}

#[test]
fn deleting_ignores_names_that_lead_elsewhere() {
    let mut work = Deletion::new("/x", "u1");
    work.listed(Ok(vec![
        DirEntry { name: "u1./../../etc/shadow".to_string(), is_dir: false, is_symlink: false },
        DirEntry { name: "u1.metadata".to_string(), is_dir: false, is_symlink: false },
    ]));
    match work.step() {
        Some(DeleteStep::RemoveFile(p)) => assert_eq!(p, "/x/u1.metadata"),
        other => panic!("unexpected {other:?}"),
    }
    work.removed(Ok(()));
    assert!(work.step().is_none());
}

#[test]
fn reaping_removes_what_the_document_no_longer_has() {
    let mut t = Tablet::new(&[
        ("/x/u1.metadata", "m"),
        ("/x/u1.pagedata", "old"),
        ("/x/u1/keep.rm", "1"),
        ("/x/u1/drop.rm", "2"),
        ("/x/u1/deep/drop.rm", "3"),
        ("/x/u1.thumbnails/a.png", "4"),
        ("/x/u2.metadata", "other"),
    ]);
    let (r, gone) = t.reap("u1", &["u1.metadata", "u1/keep.rm"]);
    r.unwrap();
    let left: Vec<&String> = t.files.keys().collect();
    assert_eq!(left, vec!["/x/u1.metadata", "/x/u1/keep.rm", "/x/u2.metadata"]);
    assert_eq!(gone, vec!["/x/u1/deep".to_string(), "/x/u1.thumbnails".to_string()]);
}

#[test]
fn reaping_keeps_directories_in_which_something_stays() {
    let mut t = Tablet::new(&[("/x/u1.m", "m"), ("/x/u1/a.rm", "1"), ("/x/u1/b.rm", "2")]);
    t.refuse = vec!["/x/u1/a.rm".to_string()];
    let (r, gone) = t.reap("u1", &["u1.m"]);
    match r {
        Err(DeviceError::Other(m)) => assert_eq!(m, "remove_file /x/u1/a.rm: denied"),
        other => panic!("expected Other, got {other:?}"),
    }
    assert!(gone.is_empty());
    assert!(!t.files.contains_key("/x/u1/b.rm"));
}

#[test]
fn reaping_passes_by_names_that_lead_elsewhere() {
    let entry = |name: &str, is_dir: bool| DirEntry { name: name.to_string(), is_dir, is_symlink: false };
    let mut work = Reap::new("/x", "u", vec!["u.metadata".to_string()]);
    work = work.listed(Ok(vec![
        entry("u./../../etc/passwd", false),
        entry("u.x/../u.metadata", false),
        entry("u.x\\y", false),
        entry("u.metadata", false),
        entry("u", true),
        entry("u./..", true),
        entry("u.old", false),
    ]));
    match work.step() {
        ReapStep::RemoveFile(p) => assert_eq!(p, "/x/u.old"),
        other => panic!("{other:?}"),
    }
    work = work.removed(Ok(()));
    match work.step() {
        ReapStep::List(p) => assert_eq!(p, "/x/u"),
        other => panic!("{other:?}"),
    }
    work = work.listed(Ok(vec![
        entry("", false),
        entry(".", true),
        entry("..", true),
        entry("../v.metadata", false),
        entry("a/../../v", true),
    ]));
    match work.step() {
        ReapStep::RemoveDir(p) => assert_eq!(p, "/x/u"),
        other => panic!("{other:?}"),
    }
    work = work.removed(Ok(()));
    assert!(matches!(work.step(), ReapStep::Finished));
    work.finish().unwrap();
}

#[test]
fn reaping_stops_at_the_depth_limit() {
    let mut path = "/x/u1".to_string();
    for _ in 0..18 {
        path.push_str("/d");
    }
    let mut t = Tablet::new(&[(&format!("{path}/f"), "1")]);
    let (r, gone) = t.reap("u1", &[]);
    match r {
        Err(DeviceError::Other(m)) => {
            assert!(m.starts_with("reap_subtree depth exceeds 16 at /x/u1/d/"), "{m}")
        }
        other => panic!("expected Other, got {other:?}"),
    }
    assert!(gone.is_empty());
    assert_eq!(t.files.len(), 1);

    let mut path = "/x/u1".to_string();
    for _ in 0..16 {
        path.push_str("/d");
    }
    let mut t = Tablet::new(&[(&format!("{path}/f"), "1")]);
    let (r, gone) = t.reap("u1", &[]);
    r.unwrap();
    assert_eq!(gone.len(), 17);
    assert!(t.files.is_empty());
}

#[test]
fn fetching_brings_every_file_in_order() {
    let t = Tablet::new(&[
        ("/x/u1.metadata", "m"),
        ("/x/u1.content", "c"),
        ("/x/u1.content.rehydrate-tmp", "no"),
        ("/x/u1.pdf.rehydrate-bak", "no"),
        ("/x/u1/p2.rm", "2"),
        ("/x/u1/p1.rm", "1"),
        ("/x/u1/deep/er/p3.rm", "3"),
        ("/x/u1.thumbnails/t.png", "t"),
        ("/x/u2.metadata", "other"),
    ]);
    let files = t.fetch("u1").unwrap();
    let paths: Vec<&str> = files.iter().map(|f| f.path.as_str()).collect();
    assert_eq!(
        paths,
        vec![
            "u1.content", "u1.metadata", "u1.thumbnails/t.png", "u1/deep/er/p3.rm", "u1/p1.rm",
            "u1/p2.rm",
        ]
    );
    assert_eq!(files[3].bytes, b"3");
    assert!(files.iter().all(|f| f.mode == 0o644));
    assert!(matches!(t.fetch("u9"), Err(DeviceError::NotFound(_))));
}

#[test]
fn fetching_needs_no_directories() {
    let t = Tablet::new(&[("/x/u1.metadata", "m")]);
    let files = t.fetch("u1").unwrap();
    assert_eq!(files.len(), 1);
    let mut work = Fetch::new("/x", "u1");
    work = work.read(Ok(b"m".to_vec()));
    work = work.listed(Ok(Vec::new()));
    work = work.listed(Err(DeviceError::Timeout("read_dir".to_string())));
    assert!(matches!(work.finish(), Err(DeviceError::Timeout(_))));
}

#[test]
fn fetching_follows_no_links_and_stops_at_the_depth_limit() {
    let mut work = Fetch::new("/x", "u1");
    work = work.read(Ok(Vec::new()));
    work = work.listed(Ok(Vec::new()));
    work = work.listed(Ok(Vec::new()));
    work = work.listed(Ok(vec![
        DirEntry { name: "loop".to_string(), is_dir: false, is_symlink: true },
        DirEntry { name: "..".to_string(), is_dir: true, is_symlink: false },
        DirEntry { name: "a\\b".to_string(), is_dir: false, is_symlink: false },
    ]));
    match work.step() {
        FetchStep::List(p) => assert_eq!(p, "/x/u1.thumbnails"),
        other => panic!("unexpected {other:?}"),
    }

    let mut path = "/x/u1".to_string();
    for _ in 0..17 {
        path.push_str("/d");
    }
    let t = Tablet::new(&[("/x/u1.metadata", "m"), (&format!("{path}/f"), "1")]);
    match t.fetch("u1") {
        Err(DeviceError::Other(m)) => assert_eq!(m, format!("subtree depth exceeds 16 at {path}")),
        other => panic!("expected Other, got {other:?}"),
    }
}

#[test]
fn listing_reads_the_metadata_of_everything() {
    let t = Tablet::new(&[
        ("/x/b.metadata", r#"{"visibleName":"Paper","parent":"f","lastModified":"17","type":"DocumentType"}"#),
        ("/x/b.content", r#"{"fileType":"pdf"}"#),
        ("/x/a.metadata", r#"{"type":"CollectionType","visibleName":"Shelf","parent":""}"#),
        ("/x/c.metadata", "{}"),
        ("/x/d.metadata", r#"{"visibleName":"Book"}"#),
        ("/x/d.content", r#"{"fileType":"epub"}"#),
        ("/x/e.metadata", r#"{"visibleName":"Odd"}"#),
        ("/x/e.content", "not json"),
    ]);
    let all = t.entries().unwrap();
    let ids: Vec<&str> = all.iter().map(|e| e.uuid.as_str()).collect();
    assert_eq!(ids, vec!["a", "b", "c", "d", "e"]);
    assert_eq!(all[0].kind, RemoteEntryKind::Folder);
    assert_eq!(all[0].doc_type, "Folder");
    assert_eq!(all[0].parent, None);
    assert_eq!(all[1].visible_name, "Paper");
    assert_eq!(all[1].doc_type, "DocumentType.Pdf");
    assert_eq!(all[1].parent.as_deref(), Some("f"));
    assert_eq!(all[1].device_mtime_hint.as_deref(), Some("17"));
    assert_eq!(all[2].visible_name, "Untitled");
    assert_eq!(all[2].doc_type, "Notebook");
    assert_eq!(all[3].doc_type, "DocumentType.Epub");
    assert_eq!(all[4].doc_type, "Notebook");
}

#[test]
fn listing_stops_at_metadata_that_makes_no_sense() {
    let t = Tablet::new(&[("/x/a.metadata", "{")]);
    match t.entries() {
        Err(DeviceError::Protocol(m)) => {
            assert!(m.starts_with("bad metadata json for a: EOF while parsing"), "{m}")
        }
        other => panic!("expected Protocol, got {other:?}"),
    }
}

fn phases(failing: Option<usize>, fail_commit: bool) -> Vec<String> {
    let files = vec![
        RemoteFile { path: "u.a".to_string(), bytes: Vec::new(), mode: 0o644 },
        RemoteFile { path: "u.b".to_string(), bytes: Vec::new(), mode: 0o644 },
    ];
    let mut work = Push::new("/x", &files);
    let mut log = Vec::new();
    loop {
        let r = match work.phase() {
            PushPhase::Stage(i) => {
                log.push(format!("stage {}", work.target(*i)));
                if !fail_commit && failing == Some(*i) {
                    Err(DeviceError::Timeout("stage".to_string()))
                } else {
                    Ok(())
                }
            }
            PushPhase::Commit(i) => {
                log.push(format!("commit {}", work.target(*i)));
                if fail_commit && failing == Some(*i) {
                    Err(DeviceError::Timeout("commit".to_string()))
                } else {
                    Ok(())
                }
            }
            PushPhase::Discard { next, .. } => {
                log.push(format!("discard {}", work.target(*next)));
                Ok(())
            }
            PushPhase::Reap => {
                log.push("reap".to_string());
                Ok(())
            }
            PushPhase::Finished(_) => break,
        };
        work = work.done(r);
    }
    log.push(match work.finish() {
        Ok(()) => "ok".to_string(),
        Err(DeviceError::Timeout(m)) => m,
        Err(other) => panic!("unexpected {other:?}"),
    });
    log
}

#[test]
fn a_push_stages_everything_first() {
    assert_eq!(
        phases(None, false),
        vec!["stage /x/u.a", "stage /x/u.b", "commit /x/u.a", "commit /x/u.b", "reap", "ok"]
    );
    assert_eq!(phases(Some(0), false), vec!["stage /x/u.a", "stage"]);
    assert_eq!(
        phases(Some(1), false),
        vec!["stage /x/u.a", "stage /x/u.b", "discard /x/u.a", "stage"]
    );
    assert_eq!(
        phases(Some(0), true),
        vec![
            "stage /x/u.a", "stage /x/u.b", "commit /x/u.a", "discard /x/u.a", "discard /x/u.b",
            "commit",
        ]
    );
    let empty: Vec<RemoteFile> = Vec::new();
    assert!(matches!(Push::new("/x", &empty).phase(), PushPhase::Reap));
}

#[test]
fn emptying_the_trash_reports_what_went() {
    let t = Tablet::new(&[
        ("/x/a.metadata", r#"{"deleted":true}"#),
        ("/x/b.metadata", r#"{"deleted":false}"#),
        ("/x/c.metadata", r#"{"deleted":true}"#),
        ("/x/d.metadata", "not json"),
        ("/x/e.metadata", "{}"),
    ]);
    let mut work = Purge::new("/x");
    let mut log = Vec::new();
    let removed = loop {
        match work.step() {
            PurgeStep::List(p) => work = work.listed(t.list(&p)),
            PurgeStep::Read(p) => work = work.read(t.read(&p).ok()),
            PurgeStep::Delete(u) => {
                log.push(u.clone());
                work = work.done(u != "a");
            }
            PurgeStep::Refresh => {
                log.push("refresh".to_string());
                work = work.done(false);
            }
            PurgeStep::Finished => break work.finish().unwrap(),
        }
    };
    assert_eq!(log, vec!["a", "c", "refresh"]);
    assert_eq!(removed, vec!["c".to_string()]);

    let mut none = Purge::new("/x");
    none = none.listed(Ok(Vec::new()));
    assert!(matches!(none.step(), PurgeStep::Finished));
    assert!(none.finish().unwrap().is_empty());
}

#[test]
fn stranded_backups_are_found() {
    let t = Tablet::new(&[
        ("/x/a", "1"),
        ("/x/a.rehydrate-bak", "2"),
        ("/x/b.rehydrate-bak", "3"),
    ]);
    let names = backed_up(&t.list("/x").unwrap());
    assert_eq!(names, vec!["a".to_string(), "b".to_string()]);
    let present: Vec<bool> = names.iter().map(|n| t.files.contains_key(&format!("/x/{n}"))).collect();
    assert_eq!(stranded_backups("/x", &names, &present), vec!["/x/b.rehydrate-bak".to_string()]);
}

#[test]
fn host_keys_are_pinned_on_first_use() {
    let first = HostKeyOutcome::judge(None, "SHA256:a");
    assert!(first.accepts());
    assert_eq!(first.fingerprint_to_pin(), Some("SHA256:a"));
    let again = HostKeyOutcome::judge(Some("SHA256:a"), "SHA256:a");
    assert!(matches!(again, HostKeyOutcome::Matched));
    assert!(again.accepts());
    assert_eq!(again.fingerprint_to_pin(), None);
    let other = HostKeyOutcome::judge(Some("SHA256:a"), "SHA256:b");
    assert!(!other.accepts());
    assert_eq!(other.fingerprint_to_pin(), None);
    match other.check_connection("h:22", Some("disconnected")) {
        Err(DeviceError::HostKeyChanged { endpoint, pinned_fingerprint, presented_fingerprint }) => {
            assert_eq!(endpoint, "h:22");
            assert_eq!(pinned_fingerprint, "SHA256:a");
            assert_eq!(presented_fingerprint, "SHA256:b");
        }
        r => panic!("expected HostKeyChanged, got {r:?}"),
    }
    match first.check_connection("h:22", Some("refused")) {
        Err(DeviceError::Unreachable(m)) => assert_eq!(m, "h:22 (refused)"),
        r => panic!("expected Unreachable, got {r:?}"),
    }
    assert!(first.check_connection("h:22", None).is_ok());
    assert!(HostKeyOutcome::default().accepts());
    assert!(check_login(Ok(true)).is_ok());
    assert!(matches!(check_login(Ok(false)), Err(DeviceError::AuthFailed)));
    assert!(matches!(
        check_login(Err("x".to_string())),
        Err(DeviceError::Other(m)) if m == "authenticate_password: x"
    ));
    assert_eq!(
        pin_warning("disk full"),
        "Couldn't pin the tablet's host key — host-key change detection is OFF until this is \
         fixed. Reason: disk full"
    );
}
