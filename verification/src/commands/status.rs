//! How the workspace differs from the commit its head is on.
use vstd::prelude::*;
use crate::database::is_text_of;
use crate::error::{repository_error, Error};
use crate::objects::Commit;
use crate::head::HeadView;
use crate::repository::Repository;
use crate::revision::{commit_files, is_diff, Files, Rev, RevDiff, Revision};
use crate::workspace::{found_fails, found_files, found_views, FoundFile, Workspace};

verus! {

/// The files of the commit the head is on, when the head is on a branch that
/// exists and the files of its commit can be listed.
pub open spec fn head_files(db: Map<Seq<u8>, Seq<u8>>, refs: Map<Seq<char>, Seq<u8>>, head: HeadView) -> Option<Files> {
    match head {
        HeadView::Branch(b) => if refs.contains_key(b) {
            commit_files(db, refs[b])
        } else {
            None
        },
        HeadView::Oid(_) => None,
    }
}

/// The status command: a workspace and its repository.
pub struct Status {
    pub ws: Workspace,
    pub repo: Repository,
}

impl Status {
    pub fn build(ws: Workspace, repo: Repository) -> (res: Status)
        ensures
            res.ws == ws,
            res.repo == repo,
    {
        Status { ws, repo }
    }

    /// The files of the workspace, from the files found in its directory.
    pub fn scan_workspace(&self, found: &Vec<FoundFile>) -> (res: Result<Rev, Error>)
        ensures
            res is Err <==> exists|i: int|
                0 <= i < found@.len() && found_fails(
                    self.ws.path_view(),
                    self.ws.ignore_view(),
                    #[trigger] found_views(found@)[i],
                ),
            res matches Err(e) ==> e is Workspace,
            res matches Ok(rev) ==> rev.wf() && rev.view() == found_files(
                self.ws.path_view(),
                self.ws.ignore_view(),
                found_views(found@),
            ),
    {
        self.ws.list_files(found)
    }

    /// The files of the commit the head is on; an error when the head is not
    /// on a branch, the branch does not exist, or its commit cannot be listed.
    pub fn scan_head(&self) -> (res: Result<Rev, Error>)
        requires
            self.repo.wf(),
        ensures
            res is Ok <==> head_files(self.repo.db.view(), self.repo.refs.view(), self.repo.local_head@) is Some,
            res matches Ok(rev) ==> rev.wf() && rev.view() == head_files(
                self.repo.db.view(),
                self.repo.refs.view(),
                self.repo.local_head@,
            ).unwrap(),
            res matches Err(e) ==> e is Repository,
            self.repo.local_head@ is Oid ==> (res matches Err(e) && repository_error(
                e,
                "cannot scan on non-branch revision yet"@,
            )),
            self.repo.local_head@ is Branch && !self.repo.refs.view().contains_key(self.repo.local_head@->Branch_0)
                ==> (res matches Err(e) && repository_error(e, "branch not found"@)),
            ({
                let db = self.repo.db.view();
                let refs = self.repo.refs.view();
                let head = self.repo.local_head@;
                head is Branch && refs.contains_key(head->Branch_0) && !(db.contains_key(refs[head->Branch_0])
                    && is_text_of::<Commit>(db[refs[head->Branch_0]])) ==> (res matches Err(e) && repository_error(
                    e,
                    if db.contains_key(refs[head->Branch_0]) {
                        "stored object cannot be read"@
                    } else {
                        "such object not found"@
                    },
                ))
            }),
    {
        let head = self.repo.local_head.get()?;
        if !head.is_branch() {
            return Err(Error::Repository(String::from_str("cannot scan on non-branch revision yet")));
        }
        let branch = head.branch()?;
        let parent = self.repo.refs.get(branch)?;
        let prev_rev = Revision::build(&self.repo, &parent)?;
        prev_rev.into_rev()
    }

    /// How the workspace differs from the commit the head is on: the files
    /// added, modified and removed since. An error when the commit's files
    /// cannot be listed, or the found files cannot be listed.
    pub fn execute(&self, found: &Vec<FoundFile>) -> (res: Result<RevDiff, Error>)
        requires
            self.repo.wf(),
        ensures
            head_files(self.repo.db.view(), self.repo.refs.view(), self.repo.local_head@) is None ==> (res matches Err(
                e,
            ) && e is Repository),
            head_files(self.repo.db.view(), self.repo.refs.view(), self.repo.local_head@) is Some ==> (res is Err
                <==> exists|i: int|
                0 <= i < found@.len() && found_fails(
                    self.ws.path_view(),
                    self.ws.ignore_view(),
                    #[trigger] found_views(found@)[i],
                )),
            res matches Ok(d) ==> is_diff(
                head_files(self.repo.db.view(), self.repo.refs.view(), self.repo.local_head@).unwrap(),
                found_files(self.ws.path_view(), self.ws.ignore_view(), found_views(found@)),
                d,
            ),
    {
        let prev_rev = self.scan_head()?;
        let curr_rev = self.scan_workspace(found)?;
        prev_rev.diff(&curr_rev)
    }
}

} // verus!
