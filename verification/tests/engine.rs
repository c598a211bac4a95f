use std::collections::BTreeMap;
use std::collections::BTreeSet;

use dedlink::action::Action;
use dedlink::action::Event;
use dedlink::engine::Config;
use dedlink::engine::Engine;
use dedlink::fingerprint::fingerprint;
use dedlink::group::DuplicateGroup;
use dedlink::hash::ContentHash;
use dedlink::replacement::GroupOutcome;
use dedlink::replacement::MemberOutcome;
use dedlink::replacement::ReplaceError;
use dedlink::run::Phase;
use dedlink::store::path_for;

const HELLO_HEX: &str = "9b71d224bd62f3785d96d46ad3ea3d73319bfbc2890caadae2dff72519673ca72323c3d99ba5c11d7c7acc6e14b8c5da0c4663475c2e5c3adef46f73bcdec043";

#[derive(Clone, Debug, PartialEq, Eq)]
enum Node {
    File(Vec<u8>),
    Link(String),
}

/// A file system in memory: regular files and symbolic links by absolute
/// path, with `/cwd` as the working directory.
#[derive(Clone, Debug, PartialEq, Eq)]
struct Disk {
    nodes: BTreeMap<String, Node>,
    dirs: BTreeSet<String>,
    refuse_store: bool,
}

fn absolute(path: &str, from: &str) -> String {
    let joined = if path.starts_with('/') { path.to_string() } else { format!("{from}/{path}") };
    let mut parts: Vec<&str> = Vec::new();
    for part in joined.split('/') {
        match part {
            "" | "." => {}
            ".." => {
                parts.pop();
            }
            other => parts.push(other),
        }
    }
    format!("/{}", parts.join("/"))
}

fn parent(path: &str) -> String {
    match path.rfind('/') {
        Some(0) | None => "/".to_string(),
        Some(at) => path[..at].to_string(),
    }
}

impl Disk {
    fn new(files: &[(&str, &str)]) -> Disk {
        let mut disk = Disk { nodes: BTreeMap::new(), dirs: BTreeSet::new(), refuse_store: false };
        disk.dirs.insert("/".to_string());
        for (path, content) in files {
            let place = absolute(path, "/cwd");
            disk.make_dirs(&parent(&place));
            disk.nodes.insert(place, Node::File(content.as_bytes().to_vec()));
        }
        disk
    }

    fn make_dirs(&mut self, dir: &str) {
        let mut dir = dir.to_string();
        while self.dirs.insert(dir.clone()) {
            dir = parent(&dir);
        }
    }

    fn node(&self, path: &str) -> Option<&Node> {
        self.nodes.get(&absolute(path, "/cwd"))
    }

    /// What a reader of `path` sees, following links.
    fn read(&self, path: &str) -> Option<Vec<u8>> {
        let mut place = absolute(path, "/cwd");
        for _ in 0..8 {
            match self.nodes.get(&place) {
                Some(Node::File(content)) => return Some(content.clone()),
                Some(Node::Link(target)) => place = absolute(target, &parent(&place)),
                None => return None,
            }
        }
        None
    }

    /// The regular files, as the scan's paths, in the order of their names.
    fn regular_files(&self, names: &[&str]) -> Vec<String> {
        names
            .iter()
            .filter(|name| matches!(self.node(name), Some(Node::File(_))))
            .map(|name| name.to_string())
            .collect()
    }

    fn perform(&mut self, action: &Action) -> Event {
        match action {
            Action::Finished | Action::Scan { .. } => Event::Failed,
            Action::CreateStore { path } => {
                if self.refuse_store {
                    return Event::Failed;
                }
                let place = absolute(path, "/cwd");
                self.make_dirs(&place);
                Event::Succeeded
            }
            Action::ProbeEntry { path } | Action::ProbeMember { path } => {
                if self.read(path).is_some() {
                    Event::Present
                } else {
                    Event::Absent
                }
            }
            Action::MoveToStore { from, to } => {
                let source = absolute(from, "/cwd");
                let place = absolute(to, "/cwd");
                if !self.dirs.contains(&parent(&place)) {
                    return Event::Failed;
                }
                match self.nodes.remove(&source) {
                    Some(node) => {
                        self.nodes.insert(place, node);
                        Event::Succeeded
                    }
                    None => Event::Failed,
                }
            }
            Action::RemoveMember { path } => match self.nodes.remove(&absolute(path, "/cwd")) {
                Some(_) => Event::Succeeded,
                None => Event::Failed,
            },
            Action::LinkMember { target, link } => {
                let place = absolute(link, "/cwd");
                if self.nodes.contains_key(&place) {
                    return Event::Failed;
                }
                self.nodes.insert(place, Node::Link(target.clone()));
                Event::Succeeded
            }
            Action::Rehash { path } => match self.read(path) {
                Some(content) => Event::Hashed(fingerprint(&content)),
                None => Event::Failed,
            },
        }
    }
}

/// Runs the engine over the files of `names` on `disk`; returns the engine
/// and the actions that it asked for after the scan.
fn run(disk: &mut Disk, names: &[&str], store_root: &str, dry_run: bool) -> (Engine, Vec<Action>) {
    let mut engine = Engine::new(Config {
        root: ".".to_string(),
        store_root: store_root.to_string(),
        dry_run,
    });
    assert_eq!(engine.pending(), Action::Scan { root: ".".to_string() });
    for path in disk.regular_files(names) {
        let content = disk.read(&path).unwrap();
        assert!(engine.record(path, fingerprint(&content)));
    }
    engine.finish_scan();
    let mut asked = Vec::new();
    loop {
        let action = engine.pending();
        if action == Action::Finished {
            break;
        }
        let event = disk.perform(&action);
        asked.push(action);
        engine.advance(event);
        assert!(asked.len() < 1000);
    }
    (engine, asked)
}

fn hello() -> ContentHash {
    fingerprint(b"hello")
}

fn group(hash: ContentHash, members: &[&str]) -> DuplicateGroup {
    DuplicateGroup { hash, members: members.iter().map(|m| m.to_string()).collect() }
}

#[test]
fn two_copies_and_one_unique_file() {
    let names = ["a.txt", "b/c.txt", "d.txt"];
    let mut disk = Disk::new(&[("a.txt", "hello"), ("b/c.txt", "hello"), ("d.txt", "world")]);
    let (engine, asked) = run(&mut disk, &names, ".dedlink", false);
    let entry = format!(".dedlink/{HELLO_HEX}");
    assert_eq!(path_for(".dedlink", &hello()), entry);
    assert_eq!(
        asked,
        vec![
            Action::CreateStore { path: ".dedlink".to_string() },
            Action::ProbeEntry { path: entry.clone() },
            Action::MoveToStore { from: "a.txt".to_string(), to: entry.clone() },
            Action::LinkMember { target: entry.clone(), link: "a.txt".to_string() },
            Action::Rehash { path: "a.txt".to_string() },
            Action::ProbeMember { path: "b/c.txt".to_string() },
            Action::RemoveMember { path: "b/c.txt".to_string() },
            Action::LinkMember { target: format!("../{entry}"), link: "b/c.txt".to_string() },
            Action::Rehash { path: "b/c.txt".to_string() },
        ]
    );
    // the store holds one entry, named by the hash of "hello"
    let stored: Vec<&String> = disk.nodes.keys().filter(|p| p.starts_with("/cwd/.dedlink/")).collect();
    assert_eq!(stored, vec![&format!("/cwd/{entry}")]);
    assert_eq!(disk.node(&entry), Some(&Node::File(b"hello".to_vec())));
    // both copies are links that resolve to "hello"
    assert_eq!(disk.node("a.txt"), Some(&Node::Link(entry.clone())));
    assert_eq!(disk.node("b/c.txt"), Some(&Node::Link(format!("../{entry}"))));
    assert_eq!(disk.read("a.txt"), Some(b"hello".to_vec()));
    assert_eq!(disk.read("b/c.txt"), Some(b"hello".to_vec()));
    // the unique file is untouched
    assert_eq!(disk.node("d.txt"), Some(&Node::File(b"world".to_vec())));
    assert_eq!(engine.phase(), Phase::Finished);
    assert_eq!(engine.exit_code(), 0);
    let reports = engine.reports();
    assert_eq!(reports.len(), 2);
    assert_eq!(reports[0].verdict(), GroupOutcome::Deduplicated);
    assert_eq!(reports[0].outcomes(), &vec![MemberOutcome::Linked, MemberOutcome::Linked]);
    assert_eq!(reports[1].verdict(), GroupOutcome::SkippedUnique);
    assert_eq!(reports[1].outcomes(), &vec![MemberOutcome::Untouched]);
}

#[test]
fn every_file_reads_as_before_the_run() {
    let files = [
        ("a.txt", "hello"),
        ("b/c.txt", "hello"),
        ("b/deep/er/e.txt", "hello"),
        ("d.txt", "world"),
        ("x/y.txt", "world"),
        ("z.txt", "alone"),
    ];
    let names: Vec<&str> = files.iter().map(|(name, _)| *name).collect();
    let mut disk = Disk::new(&files);
    let (engine, _) = run(&mut disk, &names, ".dedlink", false);
    assert_eq!(engine.exit_code(), 0);
    for (name, content) in files {
        assert_eq!(disk.read(name), Some(content.as_bytes().to_vec()));
    }
    assert_eq!(disk.node("z.txt"), Some(&Node::File(b"alone".to_vec())));
    assert!(matches!(disk.node("x/y.txt"), Some(Node::Link(_))));
}

#[test]
fn second_run_changes_nothing() {
    let names = ["a.txt", "b/c.txt", "d.txt"];
    let mut disk = Disk::new(&[("a.txt", "hello"), ("b/c.txt", "hello"), ("d.txt", "world")]);
    run(&mut disk, &names, ".dedlink", false);
    let after_first = disk.clone();
    // the second scan finds the store entry and the unique file; links are no regular files
    let entry = format!(".dedlink/{HELLO_HEX}");
    let second_names = [entry.as_str(), "a.txt", "b/c.txt", "d.txt"];
    assert_eq!(disk.regular_files(&second_names), vec![entry.clone(), "d.txt".to_string()]);
    let (engine, asked) = run(&mut disk, &second_names, ".dedlink", false);
    assert_eq!(asked, vec![Action::CreateStore { path: ".dedlink".to_string() }]);
    assert_eq!(disk, after_first);
    assert_eq!(engine.exit_code(), 0);
    assert_eq!(engine.reports().len(), 2);
    assert_eq!(engine.reports()[0].verdict(), GroupOutcome::SkippedUnique);
    assert_eq!(engine.reports()[1].verdict(), GroupOutcome::SkippedUnique);
}

#[test]
fn store_from_an_earlier_run_is_reused() {
    let names = ["new/a.txt", "new/b.txt"];
    let entry = format!(".dedlink/{HELLO_HEX}");
    let mut disk = Disk::new(&[("new/a.txt", "hello"), ("new/b.txt", "hello"), (entry.as_str(), "hello")]);
    let (engine, asked) = run(&mut disk, &names, ".dedlink", false);
    assert!(!asked.iter().any(|action| matches!(action, Action::MoveToStore { .. })));
    assert_eq!(disk.node(&entry), Some(&Node::File(b"hello".to_vec())));
    assert_eq!(disk.node("new/a.txt"), Some(&Node::Link(format!("../{entry}"))));
    assert_eq!(disk.node("new/b.txt"), Some(&Node::Link(format!("../{entry}"))));
    assert_eq!(engine.exit_code(), 0);
}

#[test]
fn dry_run_changes_nothing_and_reports_the_same_groups() {
    let names = ["a.txt", "b/c.txt", "d.txt"];
    let files = [("a.txt", "hello"), ("b/c.txt", "hello"), ("d.txt", "world")];
    let mut disk = Disk::new(&files);
    let before = disk.clone();
    let (dry, asked) = run(&mut disk, &names, ".dedlink", true);
    assert!(asked.is_empty());
    assert_eq!(disk, before);
    assert_eq!(dry.phase(), Phase::Finished);
    assert_eq!(dry.exit_code(), 0);
    assert!(dry.reports().is_empty());
    assert_eq!(
        dry.groups(),
        &vec![group(hello(), &["a.txt", "b/c.txt"]), group(fingerprint(b"world"), &["d.txt"])]
    );
    let mut engine = Engine::new(Config {
        root: ".".to_string(),
        store_root: ".dedlink".to_string(),
        dry_run: false,
    });
    for (name, content) in files {
        engine.record(name.to_string(), fingerprint(content.as_bytes()));
    }
    engine.finish_scan();
    assert_eq!(engine.groups(), dry.groups());
}

#[test]
fn dry_run_ignores_answers() {
    let mut engine = Engine::new(Config {
        root: "tree".to_string(),
        store_root: ".dedlink".to_string(),
        dry_run: true,
    });
    engine.record("tree/a".to_string(), hello());
    engine.record("tree/b".to_string(), hello());
    engine.advance(Event::Succeeded);
    assert_eq!(engine.phase(), Phase::Scanning);
    engine.finish_scan();
    for event in [Event::Succeeded, Event::Absent, Event::Present, Event::Failed] {
        engine.advance(event);
        assert_eq!(engine.pending(), Action::Finished);
        assert!(!engine.pending().mutates());
        assert_eq!(engine.phase(), Phase::Finished);
    }
}

#[test]
fn member_on_another_root_fails_alone() {
    // the store is relative, one member is absolute: no relative path leads to the store
    let names = ["data/y.txt", "/mnt/other/x.txt"];
    let mut disk = Disk::new(&[("data/y.txt", "hello"), ("/mnt/other/x.txt", "hello")]);
    let (engine, _) = run(&mut disk, &names, ".dedlink", false);
    let entry = format!(".dedlink/{HELLO_HEX}");
    assert_eq!(engine.reports()[0].outcomes(), &vec![MemberOutcome::Linked, MemberOutcome::NoRelativePath]);
    assert_eq!(engine.reports()[0].verdict(), GroupOutcome::Failed(ReplaceError::NoRelativePath));
    assert_eq!(engine.exit_code(), 1);
    // the member beside the store is deduplicated
    assert_eq!(disk.node("data/y.txt"), Some(&Node::Link(format!("../{entry}"))));
    assert_eq!(disk.read("data/y.txt"), Some(b"hello".to_vec()));
    // the other is left as it was
    assert_eq!(disk.node("/mnt/other/x.txt"), Some(&Node::File(b"hello".to_vec())));
}

#[test]
fn failure_of_one_group_does_not_stop_the_others() {
    let mut engine = Engine::new(Config {
        root: ".".to_string(),
        store_root: ".dedlink".to_string(),
        dry_run: false,
    });
    let first = ContentHash::from_bytes([1u8; 64]);
    let second = ContentHash::from_bytes([2u8; 64]);
    engine.record("a1".to_string(), first);
    engine.record("b1".to_string(), second);
    engine.record("a2".to_string(), first);
    engine.record("b2".to_string(), second);
    engine.finish_scan();
    assert_eq!(engine.phase(), Phase::CreatingStore);
    engine.advance(Event::Succeeded);
    assert_eq!(engine.phase(), Phase::Replacing);
    assert_eq!(engine.pending(), Action::ProbeEntry { path: path_for(".dedlink", &first) });
    engine.advance(Event::Absent);
    // the move of the first group fails
    engine.advance(Event::Failed);
    assert_eq!(engine.reports().len(), 1);
    assert_eq!(engine.reports()[0].verdict(), GroupOutcome::Failed(ReplaceError::StoreIo));
    // the second group is worked on all the same
    assert_eq!(engine.pending(), Action::ProbeEntry { path: path_for(".dedlink", &second) });
    engine.advance(Event::Absent);
    engine.advance(Event::Succeeded);
    engine.advance(Event::Succeeded);
    engine.advance(Event::Hashed(second));
    engine.advance(Event::Present);
    engine.advance(Event::Succeeded);
    engine.advance(Event::Succeeded);
    engine.advance(Event::Hashed(second));
    assert_eq!(engine.phase(), Phase::Finished);
    assert_eq!(engine.reports()[1].verdict(), GroupOutcome::Deduplicated);
    assert_eq!(engine.exit_code(), 1);
}

#[test]
fn store_that_cannot_be_created_gives_the_run_up() {
    let names = ["a.txt", "b.txt"];
    let mut disk = Disk::new(&[("a.txt", "hello"), ("b.txt", "hello")]);
    disk.refuse_store = true;
    let before = disk.clone();
    let (engine, asked) = run(&mut disk, &names, ".dedlink", false);
    assert_eq!(asked, vec![Action::CreateStore { path: ".dedlink".to_string() }]);
    assert_eq!(engine.phase(), Phase::StoreFailed);
    assert_eq!(engine.exit_code(), 1);
    assert!(engine.reports().is_empty());
    assert_eq!(disk, before);
}

#[test]
fn unreadable_file_gives_the_run_up() {
    let mut engine = Engine::new(Config {
        root: ".".to_string(),
        store_root: ".dedlink".to_string(),
        dry_run: false,
    });
    engine.record("a".to_string(), hello());
    engine.scan_failed();
    assert_eq!(engine.phase(), Phase::ScanFailed);
    assert_eq!(engine.pending(), Action::Finished);
    assert_eq!(engine.exit_code(), 1);
    // nothing more is taken in, and nothing is asked for
    assert!(!engine.record("b".to_string(), hello()));
    engine.finish_scan();
    engine.advance(Event::Succeeded);
    assert_eq!(engine.phase(), Phase::ScanFailed);
    assert_eq!(engine.pending(), Action::Finished);
    assert_eq!(engine.groups().len(), 1);
}

#[test]
fn run_without_files_succeeds() {
    let mut disk = Disk::new(&[]);
    let (engine, asked) = run(&mut disk, &[], ".dedlink", false);
    assert_eq!(asked, vec![Action::CreateStore { path: ".dedlink".to_string() }]);
    assert_eq!(engine.phase(), Phase::Finished);
    assert_eq!(engine.exit_code(), 0);
    assert!(engine.groups().is_empty());
}

#[test]
fn discoveries_after_the_scan_are_not_taken_in() {
    let mut engine = Engine::new(Config {
        root: ".".to_string(),
        store_root: ".dedlink".to_string(),
        dry_run: false,
    });
    assert!(engine.record("a".to_string(), hello()));
    engine.finish_scan();
    assert!(!engine.record("b".to_string(), hello()));
    assert_eq!(engine.groups(), &vec![group(hello(), &["a"])]);
}

#[test]
fn only_actions_that_change_the_disk_count_as_mutating() {
    let path = "p".to_string();
    assert!(Action::CreateStore { path: path.clone() }.mutates());
    assert!(Action::MoveToStore { from: path.clone(), to: path.clone() }.mutates());
    assert!(Action::RemoveMember { path: path.clone() }.mutates());
    assert!(Action::LinkMember { target: path.clone(), link: path.clone() }.mutates());
    assert!(!Action::Finished.mutates());
    assert!(!Action::Scan { root: path.clone() }.mutates());
    assert!(!Action::ProbeEntry { path: path.clone() }.mutates());
    assert!(!Action::ProbeMember { path: path.clone() }.mutates());
    assert!(!Action::Rehash { path }.mutates());
}
