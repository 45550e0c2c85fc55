use std::collections::{BTreeMap, HashSet};

use rit::commands::branch::Branch;
use rit::commands::checkout::Checkout;
use rit::commands::commit::Commit;
use rit::commands::status::Status;
use rit::database::Object;
use rit::error::Error;
use rit::objects::Blob;
use rit::repository::Repository;
use rit::revision::Revision;
use rit::table::Table;
use rit::workspace::{FoundFile, Ignore, RelPath, Workspace};

type Path = Vec<String>;

/// A user working in a workspace held in memory, and the changes made since
/// the last commit.
struct Client {
    root: Path,
    files: BTreeMap<Path, (String, i64)>,
    clock: i64,
    counter: u32,
    repo: Option<Repository>,
    added: HashSet<Path>,
    modified: HashSet<Path>,
    removed: HashSet<Path>,
}

fn names(p: &RelPath) -> Path {
    p.0.clone()
}

impl Client {
    fn build(test_name: &str) -> Client {
        Client {
            root: vec!["tmp".to_string(), test_name.to_string()],
            files: BTreeMap::new(),
            clock: 1_700_000_000,
            counter: 0,
            repo: None,
            added: HashSet::new(),
            modified: HashSet::new(),
            removed: HashSet::new(),
        }
    }

    fn workspace(&self) -> Workspace {
        Workspace::build(RelPath(self.root.clone()), Ignore::build(None))
    }

    fn found(&self) -> Vec<FoundFile> {
        let mut v = Vec::new();
        for (p, (_, mtime)) in self.files.iter() {
            let mut full = self.root.clone();
            full.extend(p.iter().cloned());
            v.push(FoundFile { path: RelPath(full), mtime: *mtime, readonly: false });
        }
        v
    }

    fn contents(&self) -> Table<RelPath, String> {
        let mut t = Table::new();
        for (p, (content, _)) in self.files.iter() {
            t.insert(RelPath(p.clone()), content.clone());
        }
        t
    }

    fn init(&mut self) -> Result<(), Error> {
        self.repo = Some(Repository::init()?);
        Ok(())
    }

    fn take_repo(&mut self) -> Repository {
        self.repo.take().unwrap()
    }

    fn work(&mut self) -> Result<(), Error> {
        self.clock += 1;
        let files: Vec<Path> = self.files.keys().cloned().collect();
        let number_of_files = files.len();

        let number_of_deletion = number_of_files / 3;
        for file in files.iter().take(number_of_deletion) {
            self.removed.insert(file.clone());
            self.files.remove(file);
        }

        let number_of_modification = number_of_files / 3;
        for file in files.iter().skip(number_of_deletion).take(number_of_modification) {
            self.modified.insert(file.clone());
            let entry = self.files.get_mut(file).unwrap();
            entry.0.push_str("\n//modified for integration testing\n");
            entry.1 = self.clock;
        }

        let number_of_creation = if number_of_files < 10 { 10 } else { number_of_files / 3 };
        for i in 0..number_of_creation {
            self.counter += 1;
            let new_file = vec![format!("new_file_{}_{}.txt", i, self.counter)];
            self.added.insert(new_file.clone());
            self.files.insert(new_file, ("newly created for integration testing".to_string(), self.clock));
        }
        Ok(())
    }

    fn commit(&mut self) -> Result<(), Error> {
        let ws = self.workspace();
        let rev = ws.list_files(&self.found())?;
        let contents = self.contents();
        self.counter += 1;
        let mut cmd = Commit::build(ws, self.take_repo());
        let result = cmd.execute(&rev, &contents, format!("commit-{}", self.counter));
        self.repo = Some(cmd.repo);
        result
    }

    fn try_commit(&mut self) -> Result<(), Error> {
        self.commit()?;

        for file in self.removed.iter() {
            assert!(!self.files.contains_key(file), "{:?} not removed", file);
        }

        let repo = self.repo.as_ref().unwrap();
        for file in self.added.iter().chain(self.modified.iter()) {
            let blob_ws = Blob::new(self.files[file].0.clone());
            let oid = repo.db.get_oid(&blob_ws);
            let blob_db: Blob = repo.db.retrieve(&oid)?;
            assert_eq!(blob_ws.content(), blob_db.content());
        }

        self.added.clear();
        self.modified.clear();
        self.removed.clear();
        Ok(())
    }

    fn try_status(&mut self) -> Result<(), Error> {
        let status = Status::build(self.workspace(), self.take_repo());
        let result = status.execute(&self.found());
        self.repo = Some(status.repo);
        let rev_diff = result?;

        let added: HashSet<Path> = rev_diff.added.iter().map(names).collect();
        let modified: HashSet<Path> = rev_diff.modified.iter().map(names).collect();
        let removed: HashSet<Path> = rev_diff.removed.iter().map(names).collect();
        assert_eq!(self.added, added, "comparing added files for one that was recorded and one returned by status command");
        assert_eq!(self.modified, modified, "comparing modified files for one that was recorded and one returned by status command");
        assert_eq!(self.removed, removed, "comparing removed files for one that was recorded and one returned by status command");
        Ok(())
    }

    fn try_checkout(&mut self, branch: &str) -> Result<(), Error> {
        let target_rev = {
            let repo = self.repo.as_ref().unwrap();
            let target_oid = repo.refs.get(branch)?;
            Revision::build(repo, &target_oid)?.into_rev()?
        };

        let mut checkout = Checkout::build(self.workspace(), self.take_repo());
        let result = checkout.execute(branch, &self.found());
        self.repo = Some(checkout.repo);
        let plan = result?;
        self.clock += 1;
        for (path, content) in plan.writes.iter() {
            self.files.insert(names(path), (content.clone(), self.clock));
        }
        for path in plan.removes.iter() {
            self.files.remove(&names(path));
        }

        let repo = self.repo.as_ref().unwrap();
        let head = repo.local_head.get()?;
        let curr_oid = repo.refs.get(head.branch()?)?;
        let curr_rev = Revision::build(repo, &curr_oid)?.into_rev()?;
        let rev_diff = target_rev.diff(&curr_rev)?;
        assert!(rev_diff.is_clean());
        Ok(())
    }

    fn try_branch_create(&mut self, new_branch: &str) -> Result<(), Error> {
        let mut branch = Branch::build(self.take_repo());
        let result = branch.create(new_branch);
        self.repo = Some(branch.repo);
        result
    }
}

#[test]
pub fn initialize_repository() -> Result<(), Error> {
    let mut user = Client::build("initialize-repository");
    user.init()
}

#[test]
pub fn status_after_initialize_repository() -> Result<(), Error> {
    let mut client = Client::build("status-before-initialize-repository");
    client.init()?;

    client.try_status()
}

#[test]
pub fn status_after_first_work() -> Result<(), Error> {
    let mut client = Client::build("status-after-first-work");
    client.init()?;

    client.work()?;
    client.try_status()
}

#[test]
pub fn commit_once() -> Result<(), Error> {
    let mut client = Client::build("status-after-first-work");
    client.init()?;

    client.work()?;
    client.try_commit()
}

#[test]
pub fn status_after_first_commit() -> Result<(), Error> {
    let mut client = Client::build("status-after-first-commit");
    client.init()?;

    client.work()?;
    client.try_commit()?;
    client.try_status()
}

#[test]
pub fn status_after_second_work() -> Result<(), Error> {
    let mut client = Client::build("status-after-second-work");
    client.init()?;

    client.work()?;
    client.try_commit()?;

    client.work()?;
    client.try_status()
}

#[test]
pub fn commit_twice() -> Result<(), Error> {
    let mut client = Client::build("commit-twice");
    client.init()?;

    client.work()?;
    client.try_commit()?;

    client.work()?;
    client.try_commit()
}

#[test]
pub fn status_after_second_commit() -> Result<(), Error> {
    let mut client = Client::build("status-after-second-commit");
    client.init()?;

    client.work()?;
    client.try_commit()?;

    client.work()?;
    client.try_commit()?;
    client.try_status()
}

#[test]
pub fn checkout_when_workspace_is_not_clean() -> Result<(), Error> {
    let mut client = Client::build("checkout-when-workspace-is-not-clean");
    client.init()?;

    client.work()?;
    client.try_commit()?;
    client.try_branch_create("new_branch")?;

    client.work()?;
    client.try_checkout("new_branch")
}

#[test]
pub fn checkout_from_clean_workspace() -> Result<(), Error> {
    let mut client = Client::build("checkout-from-clean-workspace");
    client.init()?;

    client.work()?;
    client.try_commit()?;

    client.try_branch_create("new_branch")?;
    client.try_checkout("new_branch")?;

    client.work()?;
    client.try_commit()?;
    client.try_checkout("main")
}

#[test]
pub fn checkout_while_working() -> Result<(), Error> {
    let mut client = Client::build("checkout-while-working");
    client.init()?;

    client.work()?;
    client.try_commit()?;

    client.work()?;
    client.try_branch_create("new_branch")?;
    client.try_checkout("new_branch")?;
    client.try_commit()
}
