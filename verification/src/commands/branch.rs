//! Creating and listing branches.
use vstd::prelude::*;
use crate::commands::checkout::start_commit;
use crate::error::{repository_error, Error};
use crate::head::HeadView;
use crate::repository::Repository;

verus! {

/// The branch command: a repository.
pub struct Branch {
    pub repo: Repository,
}

impl Branch {
    pub fn build(repo: Repository) -> (res: Branch)
        ensures
            res.repo == repo,
    {
        Branch { repo }
    }

    /// Creates the branch `new_branch` on the commit the head is on. An error
    /// when the branch exists already, or the head's branch does not exist.
    pub fn create(&mut self, new_branch: &str) -> (res: Result<(), Error>)
        requires
            old(self).repo.wf(),
        ensures
            final(self).repo.wf(),
            final(self).repo.db == old(self).repo.db,
            final(self).repo.local_head@ == old(self).repo.local_head@,
            ({
                let refs = old(self).repo.refs.view();
                let head = old(self).repo.local_head@;
                &&& res is Err <==> refs.contains_key(new_branch@) || start_commit(refs, head) is None
                &&& res matches Err(e) ==> e is Repository
                &&& refs.contains_key(new_branch@) ==> (res matches Err(e) && repository_error(
                    e,
                    "branch already exists. Not supported yet"@,
                ))
                &&& res is Err ==> final(self).repo.refs.view() == refs
                &&& res is Ok ==> final(self).repo.refs.view() == refs.insert(
                    new_branch@,
                    start_commit(refs, head).unwrap(),
                )
                &&& head matches HeadView::Oid(o) ==> (!refs.contains_key(new_branch@) ==> res is Ok
                    && final(self).repo.refs.view() == refs.insert(new_branch@, o))
                &&& head matches HeadView::Branch(c) ==> (!refs.contains_key(new_branch@) && refs.contains_key(c)
                    ==> res is Ok && final(self).repo.refs.view() == refs.insert(new_branch@, refs[c]))
            }),
    {
        if self.repo.refs.contains(new_branch) {
            return Err(Error::Repository(String::from_str("branch already exists. Not supported yet")));
        }
        let head = self.repo.local_head.get()?;
        let oid = if head.is_branch() {
            let b = head.branch()?;
            self.repo.refs.get(b)?
        } else {
            *head.oid()?
        };
        self.repo.refs.set(new_branch, &oid)
    }

    /// The names of the branches, each once.
    pub fn list(&self) -> (res: Result<Vec<String>, Error>)
        requires
            self.repo.wf(),
        ensures
            res matches Ok(names) && (forall|i: int, j: int|
                0 <= i < j < names@.len() ==> names@[i]@ != names@[j]@) && (forall|b: Seq<char>|
                #[trigger] self.repo.refs.view().contains_key(b) <==> exists|i: int|
                    0 <= i < names@.len() && names@[i]@ == b),
    {
        self.repo.refs.list_branches()
    }
}

} // verus!
