use rit::codec::{read_integer, read_string, write_integer, write_string};
use rit::commands::branch::Branch;
use rit::commands::checkout::Checkout;
use rit::commands::commit::Commit;
use rit::commands::log::Log;
use rit::commands::status::Status;
use rit::database::{Database, Object};
use rit::graph::coordinates::Coordinates;
use rit::graph_old::coordinates::Coordinates as OldCoordinates;
use rit::error::Error;
use rit::head::Head;
use rit::history::read_entire_history;
use rit::objects::{Blob, Entry, Tree, DIRECTORY_MODE, EXECUTABLE_FILE_MODE, READONLY_FILE_MODE};
use rit::oid::Oid;
use rit::repository::{oid_from_text, LocalHead, Refs, Repository};
use rit::revision::{Rev, Revision};
use rit::table::Table;
use rit::workspace::{
    get_ancestors, get_file_name, lock_path, strip_prefix, File, FoundFile, Ignore, RelPath, Stat, Workspace,
};

fn path(v: &[&str]) -> RelPath {
    RelPath(v.iter().map(|s| s.to_string()).collect())
}

fn found(v: &[&str], mtime: i64) -> FoundFile {
    FoundFile { path: path(v), mtime, readonly: false }
}

fn workspace() -> Workspace {
    Workspace::build(path(&["home", "ws"]), Ignore::build(None))
}

#[test]
fn blob_text_is_the_json_string_of_its_content() {
    let content = "line \"one\"\n\ttab \\ back\u{1} caf\u{e9} \u{1F600}";
    let blob = Blob::new(content.to_string());
    assert_eq!(blob.to_json(), serde_json::to_vec(&content).unwrap());
    let back = Blob::from_json(&serde_json::to_vec(&content).unwrap()).unwrap();
    assert_eq!(back.content(), content);
}

#[test]
fn integers_are_written_in_decimal() {
    for n in [0i64, 7, -7, 42, i64::MAX, i64::MIN, 1_000_000] {
        let mut out = Vec::new();
        write_integer(&mut out, n);
        assert_eq!(out, serde_json::to_vec(&n).unwrap());
        assert_eq!(read_integer(&out, 0, i64::MIN, i64::MAX), Some((n, out.len())));
    }
    assert_eq!(read_integer(b"007", 0, 0, 100), None);
    assert_eq!(read_integer(b"300", 0, 0, 255), None);
}

#[test]
fn strings_read_back_what_was_written() {
    let s = "a\u{0}b\"c\\d\u{7f}\u{2028}";
    let mut out = Vec::new();
    write_string(&mut out, s);
    assert_eq!(out, serde_json::to_vec(&s).unwrap());
    let (back, end) = read_string(&out, 0).unwrap();
    assert_eq!(back, s);
    assert_eq!(end, out.len());
    assert!(read_string(b"\"unterminated", 0).is_none());
}

#[test]
fn oid_of_a_known_text() {
    let oid = Oid::build("abc");
    assert_eq!(oid.to_hex(), "ba7816bf8f01cfea414140de5dae2223b00361a396177a9cb410ff61f20015ad");
    let (dir, file) = oid.split();
    assert_eq!(dir, "ba78");
    assert_eq!(file, "16bf8f01cfea414140de5dae2223b00361a396177a9cb410ff61f20015ad");
    let (dir, file) = Oid::build("").split();
    assert_eq!(dir, "e3b0");
    assert_eq!(file, "c44298fc1c149afbf4c8996fb92427ae41e4649b934ca495991b7852b855");
    assert!(oid.same(&Oid::of_bytes(b"abc")));
    assert!(!oid.same(&Oid::build("abd")));
}

#[test]
fn oid_text_is_the_json_array_of_its_bytes() {
    let oid = Oid::build("some content");
    let mut out = Vec::new();
    oid.write_json(&mut out);
    let bytes: Vec<u8> = (0..32).map(|i| {
        let hex = oid.to_hex();
        u8::from_str_radix(&hex[2 * i..2 * i + 2], 16).unwrap()
    }).collect();
    assert_eq!(out, serde_json::to_vec(&bytes).unwrap());
    let back = oid_from_text(&out).unwrap();
    assert!(back.same(&oid));
    assert!(oid_from_text(b"[1,2,3]").is_none());
}

#[test]
fn entry_and_tree_texts_are_json_arrays() {
    let oid = Oid::build("x");
    let hex = oid.to_hex();
    let bytes: Vec<u8> = (0..32).map(|i| u8::from_str_radix(&hex[2 * i..2 * i + 2], 16).unwrap()).collect();
    let e = Entry::new(READONLY_FILE_MODE, -12, oid, "a.txt".to_string());
    let d = Entry::new(DIRECTORY_MODE, 0, oid, "dir".to_string());
    assert!(!e.is_dir());
    assert!(d.is_dir());
    let tree = Tree::new(vec![e, d]);
    let expected = serde_json::to_vec(&vec![
        (READONLY_FILE_MODE, -12i64, bytes.clone(), "a.txt"),
        (DIRECTORY_MODE, 0i64, bytes.clone(), "dir"),
    ])
    .unwrap();
    assert_eq!(tree.to_json(), expected);
    let back = Tree::from_json(&expected).unwrap();
    assert_eq!(back.entries().len(), 2);
    assert_eq!(back.entries()[0].name(), "a.txt");
    assert_eq!(back.entries()[0].mtime(), -12);
    assert_eq!(back.entries()[1].mode(), DIRECTORY_MODE);
    assert!(Tree::from_json(b"[").is_none());
}

#[test]
fn commit_reads_back() {
    let root = Oid::build("root");
    let parent = Oid::build("parent");
    let c = rit::objects::Commit::new(Some(parent), root, "message".to_string());
    let text = c.to_json();
    let back = rit::objects::Commit::from_json(&text).unwrap();
    assert!(back.root().same(&root));
    assert!(back.parent().as_ref().unwrap().same(&parent));
    assert_eq!(back.message(), "message");
    let first = rit::objects::Commit::new(None, root, "init".to_string());
    let back = rit::objects::Commit::from_json(&first.to_json()).unwrap();
    assert!(back.parent().is_none());
}

#[test]
fn head_text_is_an_externally_tagged_enum() {
    let h = Head::Branch("main".to_string());
    let mut out = Vec::new();
    h.write_json(&mut out);
    let mut map = serde_json::Map::new();
    map.insert("Branch".to_string(), serde_json::Value::String("main".to_string()));
    assert_eq!(out, serde_json::to_vec(&serde_json::Value::Object(map)).unwrap());
    let lh = LocalHead::build(&out).unwrap();
    let head = lh.get().unwrap();
    assert!(head.is_branch());
    assert_eq!(head.branch().unwrap(), "main");
    match head.oid() {
        Err(Error::Repository(m)) => assert_eq!(m, "Head.oid method called on wrong spot"),
        _ => panic!("the head is on a branch"),
    }
    match Head::Oid(Oid::build("")).branch() {
        Err(Error::Repository(m)) => assert_eq!(m, "Head.branch method called on wrong spot"),
        _ => panic!("the head is on an id"),
    }
    assert!(matches!(LocalHead::build(b"{\"Tag\":\"x\"}"), Err(Error::Repository(_))));
}

#[test]
fn local_head_moves() {
    let mut lh = LocalHead::init();
    assert_eq!(lh.get().unwrap().branch().unwrap(), "main");
    let oid = Oid::build("c");
    lh.set_to_oid(&oid).unwrap();
    let head = lh.get().unwrap();
    assert!(!head.is_branch());
    assert!(head.oid().unwrap().same(&oid));
    let text = lh.text();
    let again = LocalHead::build(&text).unwrap();
    assert!(again.get().unwrap().oid().unwrap().same(&oid));
    lh.set_to_branch("dev").unwrap();
    assert_eq!(lh.get().unwrap().branch().unwrap(), "dev");
}

#[test]
fn retrieve_gives_back_what_was_stored() {
    let mut db = Database::init();
    let blob = Blob::new("hello".to_string());
    let oid = db.store(&blob).unwrap();
    assert!(oid.same(&db.get_oid(&blob)));
    assert!(oid.same(&Oid::of_bytes(&blob.to_json())));
    let again = db.store(&blob).unwrap();
    assert!(again.same(&oid));
    assert_eq!(db.len(), 1);
    let back: Blob = db.retrieve(&oid).unwrap();
    assert_eq!(back.content(), "hello");
    let missing: Result<Blob, Error> = db.retrieve(&Oid::build("nothing"));
    match missing {
        Err(Error::Repository(m)) => assert_eq!(m, "such object not found"),
        _ => panic!("nothing is stored there"),
    }
    let wrong_kind: Result<Tree, Error> = db.retrieve(&oid);
    assert!(matches!(wrong_kind, Err(Error::Repository(_))));
}

#[test]
fn database_built_from_texts() {
    let t1 = Blob::new("one".to_string()).to_json();
    let t2 = Blob::new("two".to_string()).to_json();
    let db = Database::build(&vec![t1.clone(), t2.clone(), t1.clone()]);
    assert_eq!(db.len(), 2);
    assert!(db.contains(&Oid::of_bytes(&t1)));
    assert_eq!(db.text(&Oid::of_bytes(&t2)).unwrap(), &t2);
    assert_eq!(Database::name(), "objects");
    assert_eq!(db.oids().len(), 2);
}

#[test]
fn refs_are_built_from_texts() {
    let oid = Oid::build("commit");
    let mut text = Vec::new();
    oid.write_json(&mut text);
    let refs = Refs::build(&vec![("main".to_string(), text.clone())]).unwrap();
    assert!(refs.contains("main"));
    assert!(refs.get("main").unwrap().same(&oid));
    assert!(matches!(refs.get("dev"), Err(Error::Repository(_))));
    assert!(matches!(Refs::build(&vec![("main".to_string(), b"oops".to_vec())]), Err(Error::Repository(_))));
    assert_eq!(refs.list_branches().unwrap(), vec!["main".to_string()]);
}

#[test]
fn new_repository_is_on_main() {
    let repo = Repository::init().unwrap();
    assert_eq!(Repository::name(), ".rit");
    assert_eq!(repo.db.len(), 2);
    let head = repo.local_head.get().unwrap();
    assert_eq!(head.branch().unwrap(), "main");
    let oid = repo.refs.get("main").unwrap();
    let commit: rit::objects::Commit = repo.db.retrieve(&oid).unwrap();
    assert_eq!(commit.message(), "init");
    assert!(commit.parent().is_none());
    let tree: Tree = repo.db.retrieve(commit.root()).unwrap();
    assert_eq!(tree.entries().len(), 0);
}

#[test]
fn file_names_and_ancestors() {
    assert_eq!(get_file_name(&path(&["a", "b.txt"])).unwrap(), "b.txt");
    assert!(matches!(get_file_name(&path(&[])), Err(Error::Workspace(_))));
    assert!(matches!(get_file_name(&path(&["a", ".."])), Err(Error::Workspace(_))));
    assert_eq!(get_ancestors(&path(&["a", "b", "c"])).unwrap(), vec!["c".to_string(), "b".to_string(), "a".to_string()]);
    assert!(get_ancestors(&path(&["a", "", "c"])).is_err());
    assert_eq!(strip_prefix(&path(&["r", "a", "b"]), &path(&["r"])).unwrap().0, vec!["a".to_string(), "b".to_string()]);
    assert!(matches!(strip_prefix(&path(&["x", "a"]), &path(&["r"])), Err(Error::Workspace(_))));
    let ws = workspace();
    assert_eq!(ws.get_relative_path(&path(&["home", "ws", "f"])).unwrap().0, vec!["f".to_string()]);
    assert_eq!(ws.get_ancestors(&path(&["d", "f"])).unwrap(), vec!["f".to_string(), "d".to_string()]);
    assert_eq!(ws.path().0, vec!["home".to_string(), "ws".to_string()]);
}

#[test]
fn lock_paths_replace_the_extension() {
    assert_eq!(lock_path(&path(&["d", "f.txt"])).0, vec!["d".to_string(), "f.lock".to_string()]);
    assert_eq!(lock_path(&path(&["LOCAL_HEAD"])).0, vec!["LOCAL_HEAD.lock".to_string()]);
    assert_eq!(lock_path(&path(&[".hidden"])).0, vec![".hidden.lock".to_string()]);
    assert_eq!(lock_path(&path(&["a.b.c"])).0, vec!["a.b.lock".to_string()]);
}

#[test]
fn ignored_names() {
    let ignore = Ignore::build(None);
    assert_eq!(Ignore::name(), ".ignore");
    assert!(ignore.is_ignored(".rit"));
    assert!(!ignore.is_ignored("src"));
    let mut listed = Ignore::build(Some(vec!["target".to_string()]));
    assert!(listed.is_ignored("target"));
    assert!(!listed.is_ignored(".rit"));
    listed.add(vec!["build".to_string(), "target".to_string()]);
    assert!(listed.is_ignored("build"));
    assert_eq!(listed.names().len(), 2);
}

#[test]
fn workspace_lists_tracked_files() {
    let ws = workspace();
    let files = vec![
        found(&["home", "ws", "a.txt"], 1),
        found(&["home", "ws", ".rit", "objects", "ab", "cd"], 2),
        found(&["home", "ws", "src", "main.rs"], 3),
        FoundFile { path: path(&["home", "ws", "ro.txt"]), mtime: 4, readonly: true },
    ];
    let rev = ws.list_files(&files).unwrap();
    assert!(ws.is_listed("src"));
    assert!(!ws.is_listed(".rit"));
    assert!(ws.is_untracked(&path(&[".rit", "x"])));
    let empty = Rev::new();
    let d = empty.diff(&rev).unwrap();
    let mut added: Vec<Vec<String>> = d.added.iter().map(|p| p.0.clone()).collect();
    added.sort();
    assert_eq!(added, vec![vec!["a.txt".to_string()], vec!["ro.txt".to_string()], vec!["src".to_string(), "main.rs".to_string()]]);
    assert!(matches!(ws.list_files(&vec![found(&["elsewhere", "f"], 1)]), Err(Error::Workspace(_))));
    assert!(matches!(ws.list_files(&vec![found(&["home", "ws"], 1)]), Err(Error::Workspace(_))));
}

#[test]
fn files_know_their_mode_and_id() {
    let f = File::build("a".to_string(), 9, true);
    assert_eq!(f.mode(), READONLY_FILE_MODE);
    assert!(matches!(f.oid(), Err(Error::Workspace(_))));
    let mut g = File::build("b".to_string(), 9, false);
    assert_eq!(g.mode(), EXECUTABLE_FILE_MODE);
    g.set_oid(Oid::build("b"));
    assert!(g.oid().unwrap().same(&Oid::build("b")));
    assert!(!g.is_dir());
    assert!(matches!(Entry::build(&f), Err(Error::Workspace(_))));
    let e = Entry::build(&g).unwrap();
    assert_eq!(e.name(), "b");
    assert_eq!(e.mode(), EXECUTABLE_FILE_MODE);
    assert_eq!(e.mtime(), 9);
    assert!(e.oid().same(&Oid::build("b")));
}

#[test]
fn diff_of_a_revision_with_itself_is_clean() {
    let ws = workspace();
    let rev = ws.list_files(&vec![found(&["home", "ws", "a"], 1), found(&["home", "ws", "b"], 2)]).unwrap();
    assert!(rev.diff(&rev).unwrap().is_clean());
    let other = ws.list_files(&vec![found(&["home", "ws", "a"], 5), found(&["home", "ws", "c"], 2)]).unwrap();
    let d = rev.diff(&other).unwrap();
    let e = other.diff(&rev).unwrap();
    assert_eq!(d.added.len(), 1);
    assert_eq!(d.added[0].0, vec!["c".to_string()]);
    assert_eq!(d.removed[0].0, vec!["b".to_string()]);
    assert_eq!(d.modified[0].0, vec!["a".to_string()]);
    assert_eq!(e.added[0].0, d.removed[0].0);
    assert_eq!(e.removed[0].0, d.added[0].0);
    assert_eq!(e.modified[0].0, d.modified[0].0);
}

#[test]
fn error_texts() {
    assert_eq!(Error::Io("x".to_string()).to_string(), "(io)x");
    assert_eq!(Error::Workspace("x".to_string()).to_string(), "(workspace)x");
    assert_eq!(Error::Repository("x".to_string()).to_string(), "(repository)x");
    assert_eq!(Error::InvalidData("x".to_string()).to_string(), "Invalid data: x");
    assert_eq!(Error::Unknown("x".to_string()).to_string(), "(unknown)x");
}

fn contents(files: &[(&[&str], &str)]) -> Table<RelPath, String> {
    let mut t = Table::new();
    for (p, c) in files {
        t.insert(path(p), c.to_string());
    }
    t
}

#[test]
fn commit_records_nested_files_and_status_is_clean_after() {
    let ws = workspace();
    let listing = vec![
        found(&["home", "ws", "a.txt"], 1),
        found(&["home", "ws", "d", "b.txt"], 2),
        found(&["home", "ws", "d", "e", "c.txt"], 3),
    ];
    let rev = ws.list_files(&listing).unwrap();
    let data = contents(&[(&["a.txt"], "A"), (&["d", "b.txt"], "B"), (&["d", "e", "c.txt"], "C")]);
    let mut cmd = Commit::build(ws, Repository::init().unwrap());
    cmd.execute(&rev, &data, "first".to_string()).unwrap();

    for content in ["A", "B", "C"] {
        let blob = Blob::new(content.to_string());
        let stored: Blob = cmd.repo.db.retrieve(&cmd.repo.db.get_oid(&blob)).unwrap();
        assert_eq!(stored.content(), content);
    }
    let status = Status::build(workspace(), cmd.repo);
    assert!(status.execute(&listing).unwrap().is_clean());
    let head_rev = status.scan_head().unwrap();
    assert!(head_rev.diff(&status.scan_workspace(&listing).unwrap()).unwrap().is_clean());

    let log = Log::build(status.repo);
    let history = log.execute("main").unwrap();
    assert_eq!(history.len(), 2);
    assert_eq!(history[0].1.message(), "first");
    assert_eq!(history[1].1.message(), "init");
    assert!(history[0].1.parent().as_ref().unwrap().same(&history[1].0));
    assert!(matches!(log.execute("nope"), Err(Error::Repository(_))));

    let mut tip = log.node("main").unwrap();
    assert!(tip.oid().same(&history[0].0));
    assert_eq!(tip.commit().message(), "first");
    let mut first = tip.next().unwrap();
    assert!(first.oid().same(&history[1].0));
    assert_eq!(first.commit().message(), "init");
    assert!(first.next().is_none());
    assert!(matches!(log.node("nope"), Err(Error::Repository(_))));

    let root: Tree = log.repo.db.retrieve(history[0].1.root()).unwrap();
    assert_eq!(root.entries().len(), 2);
    let revision = Revision::build(&log.repo, &history[0].0).unwrap();
    let listed = revision.into_rev().unwrap();
    assert!(listed.diff(&rev).unwrap().is_clean());
}

#[test]
fn commit_refuses_what_it_cannot_record() {
    let ws = workspace();
    let empty = ws.list_files(&vec![]).unwrap();
    let mut cmd = Commit::build(workspace(), Repository::init().unwrap());
    assert!(matches!(cmd.execute(&empty, &Table::new(), "m".to_string()), Err(Error::Workspace(_))));

    let listing = vec![found(&["home", "ws", "a.txt"], 1)];
    let rev = ws.list_files(&listing).unwrap();
    assert!(matches!(cmd.execute(&rev, &Table::new(), "m".to_string()), Err(Error::Io(_))));

    let main = cmd.repo.refs.get("main").unwrap();
    cmd.repo.local_head.set_to_oid(&main).unwrap();
    let objects = cmd.repo.db.len();
    match cmd.execute(&rev, &contents(&[(&["a.txt"], "A")]), "m".to_string()) {
        Err(Error::Repository(m)) => assert_eq!(m, "cannot run commit on non-branch head"),
        _ => panic!("a detached head cannot commit"),
    }
    assert_eq!(cmd.repo.db.len(), objects);

    let mut clean = Commit::build(workspace(), Repository::init().unwrap());
    match clean.execute(&empty, &Table::new(), "m".to_string()) {
        Err(Error::Workspace(m)) => assert_eq!(m, "Workspace is clean. Nothing to commit"),
        _ => panic!("a clean workspace cannot commit"),
    }
    assert_eq!(clean.repo.db.len(), 2);

    let mut status = Status::build(workspace(), clean.repo);
    status.repo.local_head.set_to_oid(&main).unwrap();
    match status.scan_head() {
        Err(Error::Repository(m)) => assert_eq!(m, "cannot scan on non-branch revision yet"),
        _ => panic!("a detached head has no branch to scan"),
    }
}

#[test]
fn branches_are_created_on_the_head() {
    let mut branch = Branch::build(Repository::init().unwrap());
    branch.create("dev").unwrap();
    match branch.create("dev") {
        Err(Error::Repository(m)) => assert_eq!(m, "branch already exists. Not supported yet"),
        _ => panic!("an existing branch cannot be created"),
    }
    let mut names = branch.list().unwrap();
    names.sort();
    assert_eq!(names, vec!["dev".to_string(), "main".to_string()]);
    assert!(branch.repo.refs.get("dev").unwrap().same(&branch.repo.refs.get("main").unwrap()));
}

#[test]
fn checkout_writes_and_removes_the_difference() {
    let ws = workspace();
    let first = vec![found(&["home", "ws", "keep.txt"], 1), found(&["home", "ws", "gone.txt"], 1)];
    let rev1 = ws.list_files(&first).unwrap();
    let mut cmd = Commit::build(workspace(), Repository::init().unwrap());
    cmd.execute(&rev1, &contents(&[(&["keep.txt"], "K"), (&["gone.txt"], "G")]), "one".to_string()).unwrap();
    let mut branch = Branch::build(cmd.repo);
    branch.create("old").unwrap();

    let second = vec![found(&["home", "ws", "keep.txt"], 1), found(&["home", "ws", "new", "n.txt"], 2)];
    let rev2 = ws.list_files(&second).unwrap();
    let mut cmd = Commit::build(workspace(), branch.repo);
    cmd.execute(&rev2, &contents(&[(&["keep.txt"], "K"), (&["new", "n.txt"], "N")]), "two".to_string()).unwrap();

    let mut checkout = Checkout::build(workspace(), cmd.repo);
    let dirty = vec![found(&["home", "ws", "keep.txt"], 9), found(&["home", "ws", "new", "n.txt"], 2)];
    match checkout.execute("old", &dirty) {
        Err(Error::Workspace(m)) => assert_eq!(m, "workspace is not clean. cannot use checkout"),
        _ => panic!("a workspace with changes cannot be checked out"),
    }
    match checkout.execute("missing", &second) {
        Err(Error::Repository(m)) => assert_eq!(m, "branch not found"),
        _ => panic!("a missing branch cannot be checked out"),
    }

    let plan = checkout.execute("old", &second).unwrap();
    assert_eq!(plan.writes.len(), 1);
    assert_eq!(plan.writes[0].0 .0, vec!["gone.txt".to_string()]);
    assert_eq!(plan.writes[0].1, "G");
    assert_eq!(plan.removes.len(), 1);
    assert_eq!(plan.removes[0].0, vec!["new".to_string(), "n.txt".to_string()]);
    let head = checkout.repo.local_head.get().unwrap();
    assert_eq!(head.branch().unwrap(), "old");

    let mut same = Checkout::build(workspace(), Repository::init().unwrap());
    let plan = same.execute("main", &vec![]).unwrap();
    assert!(plan.writes.is_empty() && plan.removes.is_empty());
    assert_eq!(same.repo.local_head.get().unwrap().branch().unwrap(), "main");

    let mut branch = Branch::build(same.repo);
    branch.create("dev").unwrap();
    let mut same = Checkout::build(workspace(), branch.repo);
    let dirty = vec![found(&["home", "ws", "x.txt"], 1)];
    let plan = same.execute("dev", &dirty).unwrap();
    assert!(plan.writes.is_empty() && plan.removes.is_empty());
    assert_eq!(same.repo.local_head.get().unwrap().branch().unwrap(), "dev");
}

#[test]
fn tables_keep_one_value_per_key() {
    let mut t: Table<String, String> = Table::new();
    t.insert("k".to_string(), "1".to_string());
    t.insert("k".to_string(), "2".to_string());
    assert_eq!(t.len(), 1);
    assert_eq!(t.get(&"k".to_string()).unwrap(), "2");
    assert!(t.contains(&"k".to_string()));
    assert_eq!(t.remove(&"k".to_string()).unwrap(), "2");
    assert!(t.get(&"k".to_string()).is_none());
}

fn graph() -> (rit::graph::HistoryGraph, [Oid; 4]) {
    let a = Oid::build("a");
    let b = Oid::build("b");
    let c = Oid::build("c");
    let d = Oid::build("d");
    let mut children = Table::new();
    children.insert(a, vec![b, c]);
    children.insert(b, vec![d]);
    let mut parents = Table::new();
    parents.insert(d, vec![b]);
    parents.insert(b, vec![a]);
    parents.insert(c, vec![a]);
    let hg = rit::graph::HistoryGraph {
        roots: vec![a],
        leaves: vec![("main".to_string(), d), ("side".to_string(), c)],
        children,
        parents,
    };
    (hg, [a, b, c, d])
}

#[test]
fn coordinates_place_children_below_their_parent() {
    let (hg, [a, b, c, d]) = graph();
    assert_eq!(Coordinates::gap(), 50);
    assert_eq!(Coordinates::init(), (50, 50));
    let coords = Coordinates::from(&hg);
    assert_eq!(coords.0.len(), 4);
    assert_eq!(coords.0.get(&a), Some(&(50, 50)));
    assert_eq!(coords.0.get(&b), Some(&(50, 100)));
    assert_eq!(coords.0.get(&d), Some(&(50, 150)));
    assert_eq!(coords.0.get(&c), Some(&(100, 100)));
}

#[test]
fn old_coordinates_place_parents_below_the_tips() {
    let (hg, [a, b, c, d]) = graph();
    assert_eq!(OldCoordinates::gap(), 50);
    assert_eq!(OldCoordinates::init(), (50, 50));
    let coords = OldCoordinates::from(&hg);
    assert_eq!(coords.0.get(&d), Some(&(50, 50)));
    assert_eq!(coords.0.get(&b), Some(&(50, 100)));
    assert_eq!(coords.0.get(&c), Some(&(100, 50)));
    assert_eq!(coords.0.get(&a), Some(&(100, 100)));
}

#[test]
fn history_links_parents_and_children() {
    let c1 = Oid::build("c1");
    let c2 = Oid::build("c2");
    let c3 = Oid::build("c3");
    let c4 = Oid::build("c4");
    let walks = vec![
        (c3, vec![(c2, Some(c1)), (c1, None)]),
        (c4, vec![(c2, Some(c1))]),
        (c3, vec![(c4, Some(c1))]),
    ];
    let history = read_entire_history(&walks);
    assert_eq!(history.len(), 4);
    let l3 = history.get(&c3).unwrap();
    assert!(l3.parents.is_empty() && l3.children.is_empty());
    let l2 = history.get(&c2).unwrap();
    assert_eq!(l2.parents.len(), 1);
    assert!(l2.parents[0].same(&c1));
    assert!(l2.children.is_empty());
    let l1 = history.get(&c1).unwrap();
    assert!(l1.parents.is_empty());
    assert_eq!(l1.children.len(), 1);
    assert!(l1.children[0].same(&c2));
    let l4 = history.get(&c4).unwrap();
    assert!(l4.parents.is_empty() && l4.children.is_empty());
}
