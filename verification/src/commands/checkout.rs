//! Moving the workspace and the head to the commit of a branch.
use vstd::prelude::*;
use crate::commands::commit::{lemma_path_set_empty, unchanged};
use crate::database::{is_text_of, retrieved_as};
use crate::error::{repository_error, workspace_error, Error};
use crate::head::HeadView;
use crate::objects::{blob_text, Blob};
use crate::oid::{lemma_oid_len, Oid};
use crate::repository::Repository;
use crate::revision::{
    added_paths, commit_files, modified_paths, path_set, Files,
    PathView, Rev, Revision,
};
use crate::table::Key;
use crate::workspace::{found_fails, found_files, found_views, FoundFile, RelPath, Stat, Workspace};

verus! {

broadcast use lemma_oid_len;

/// The content of the blob whose stored text is `t`.
pub open spec fn blob_of(t: Seq<u8>) -> Seq<char> {
    choose|c: Seq<char>| blob_text(c) == t
}

/// What the workspace has to do to hold the files of a commit: the files to
/// write, with their contents, and the files to remove.
pub struct CheckoutPlan {
    pub writes: Vec<(RelPath, String)>,
    pub removes: Vec<RelPath>,
}

/// The paths written by a plan.
pub open spec fn written_paths(v: Seq<(RelPath, String)>) -> Set<PathView> {
    v.map_values(|x: (RelPath, String)| x.0@).to_set()
}

/// Every write of `v` puts at its path the content stored for that path's
/// file in `target`.
pub open spec fn writes_contents(db: Map<Seq<u8>, Seq<u8>>, target: Files, v: Seq<(RelPath, String)>) -> bool {
    forall|i: int|
        0 <= i < v.len() ==> target.contains_key(#[trigger] v[i].0@) && v[i].1@ == blob_of(
            db[target[v[i].0@].1.unwrap()],
        )
}

/// The contents of the files to write can be read: each is a blob stored
/// under the id its file has in `target`.
pub open spec fn contents_readable(db: Map<Seq<u8>, Seq<u8>>, target: Files, paths: Set<PathView>) -> bool {
    forall|p: PathView|
        #[trigger] paths.contains(p) ==> target.contains_key(p) && target[p].1 is Some && db.contains_key(
            target[p].1.unwrap(),
        ) && is_text_of::<Blob>(db[target[p].1.unwrap()])
}

/// The checkout command: a workspace and its repository.
pub struct Checkout {
    pub ws: Workspace,
    pub repo: Repository,
}

/// The paths a checkout writes: those the target adds or changes.
pub open spec fn paths_to_write(w: Files, target: Files) -> Set<PathView> {
    added_paths(w, target).union(modified_paths(w, target))
}

/// The commit the head is on: the commit of its branch, or its id.
pub open spec fn start_commit(refs: Map<Seq<char>, Seq<u8>>, head: HeadView) -> Option<Seq<u8>> {
    match head {
        HeadView::Branch(b) => if refs.contains_key(b) {
            Some(refs[b])
        } else {
            None
        },
        HeadView::Oid(o) => Some(o),
    }
}

/// A detached head is on the commit it names, and a head on an existing
/// branch is on that branch's commit.
pub proof fn lemma_start_commit(refs: Map<Seq<char>, Seq<u8>>, head: HeadView)
    ensures
        head matches HeadView::Oid(o) ==> start_commit(refs, head) == Some(o),
        head matches HeadView::Branch(b) ==> (start_commit(refs, head) is Some <==> refs.contains_key(b)),
        head matches HeadView::Branch(b) ==> (refs.contains_key(b) ==> start_commit(refs, head) == Some(refs[b])),
{
}

/// The head is on a branch whose commit is already the commit of `target`.
pub open spec fn same_commit(refs: Map<Seq<char>, Seq<u8>>, head: HeadView, target: Seq<char>) -> bool {
    head matches HeadView::Branch(b) && refs.contains_key(b) && refs[b] == refs[target]
}

impl Checkout {
    pub fn build(ws: Workspace, repo: Repository) -> (res: Checkout)
        ensures
            res.ws == ws,
            res.repo == repo,
    {
        Checkout { ws, repo }
    }

    /// Moves to `branch`, given the files `found` in the workspace: returns
    /// the files to write and to remove for the workspace to hold the files
    /// of the branch's commit, and puts the head on the branch. When the
    /// head's branch is on that commit already, no file is to be written or
    /// removed. An error when a branch does not exist, a commit's files
    /// cannot be listed, the found files cannot be listed, the workspace
    /// differs from the head's commit, or the content of a file to write
    /// cannot be read.
    pub fn execute(&mut self, branch: &str, found: &Vec<FoundFile>) -> (res: Result<CheckoutPlan, Error>)
        requires
            old(self).repo.wf(),
        ensures
            final(self).repo.wf(),
            final(self).ws == old(self).ws,
            final(self).repo.db == old(self).repo.db,
            final(self).repo.refs == old(self).repo.refs,
            res is Err ==> final(self).repo.local_head@ == old(self).repo.local_head@,
            ({
                let db = old(self).repo.db.view();
                let refs = old(self).repo.refs.view();
                let head = old(self).repo.local_head@;
                let ws = old(self).ws;
                let w = found_files(ws.path_view(), ws.ignore_view(), found_views(found@));
                let fails = exists|i: int|
                    0 <= i < found@.len() && found_fails(ws.path_view(), ws.ignore_view(), #[trigger] found_views(found@)[i]);
                &&& !refs.contains_key(branch@) ==> (res matches Err(e) && repository_error(e, "branch not found"@))
                &&& refs.contains_key(branch@) && start_commit(refs, head) is None ==> (res matches Err(e)
                    && repository_error(e, "branch not found"@))
                &&& refs.contains_key(branch@) && same_commit(refs, head, branch@) ==> (res matches Ok(plan) && plan.writes@.len() == 0
                    && plan.removes@.len() == 0 && final(self).repo.local_head@ == HeadView::Branch(branch@))
                &&& refs.contains_key(branch@) && start_commit(refs, head) is Some && !same_commit(refs, head, branch@) ==> {
                    let prev = commit_files(db, start_commit(refs, head).unwrap());
                    let target = commit_files(db, refs[branch@]);
                    &&& prev is None ==> (res matches Err(e) && e is Repository)
                    &&& prev is Some && fails ==> (res matches Err(e) && e is Workspace)
                    &&& prev is Some && !fails && !unchanged(prev.unwrap(), w) ==> (res matches Err(e) && workspace_error(
                        e,
                        "workspace is not clean. cannot use checkout"@,
                    ))
                    &&& prev is Some && !fails && unchanged(prev.unwrap(), w) && target is None ==> (res matches Err(e) && e is Repository)
                    &&& prev is Some && !fails && unchanged(prev.unwrap(), w) && target is Some ==> (res is Err <==> !contents_readable(
                        db,
                        target.unwrap(),
                        paths_to_write(w, target.unwrap()),
                    ))
                    &&& res matches Ok(plan) ==> target is Some && written_paths(plan.writes@) == paths_to_write(w, target.unwrap())
                        && writes_contents(db, target.unwrap(), plan.writes@) && path_set(plan.removes@) == added_paths(target.unwrap(), w)
                        && final(self).repo.local_head@ == HeadView::Branch(branch@)
                }
                &&& head matches HeadView::Oid(o) ==> (refs.contains_key(branch@) && commit_files(db, o) is Some && !fails
                    && unchanged(commit_files(db, o).unwrap(), w) && commit_files(db, refs[branch@]) is Some
                    && contents_readable(db, commit_files(db, refs[branch@]).unwrap(), paths_to_write(w, commit_files(db, refs[branch@]).unwrap()))
                    ==> res is Ok && final(self).repo.local_head@ == HeadView::Branch(branch@))
            }),
    {
        let target_oid = self.repo.refs.get(branch)?;
        let head = self.repo.local_head.get()?;
        let prev_oid = if head.is_branch() {
            let cur = head.branch()?;
            let prev_oid = self.repo.refs.get(cur)?;
            if prev_oid.same(&target_oid) {
                let _ = self.repo.local_head.set_to_branch(branch);
                return Ok(CheckoutPlan { writes: Vec::new(), removes: Vec::new() });
            }
            prev_oid
        } else {
            *head.oid()?
        };
        let prev_rev = {
            let prev_revision = Revision::build(&self.repo, &prev_oid)?;
            prev_revision.into_rev()?
        };
        let curr_rev = self.ws.list_files(found)?;
        let check = prev_rev.diff(&curr_rev)?;
        proof {
            lemma_path_set_empty(check.added@);
            lemma_path_set_empty(check.removed@);
            lemma_path_set_empty(check.modified@);
        }
        if !check.is_clean() {
            return Err(Error::Workspace(String::from_str("workspace is not clean. cannot use checkout")));
        }
        let target_rev = {
            let target_revision = Revision::build(&self.repo, &target_oid)?;
            target_revision.into_rev()?
        };
        let plan = self.plan(&curr_rev, &target_rev)?;
        let _ = self.repo.local_head.set_to_branch(branch);
        Ok(plan)
    }

    /// The write that puts at `p` the content of its file in `target`.
    fn write_of(&self, target: &Rev, p: &RelPath) -> (res: Result<(RelPath, String), Error>)
        requires
            self.repo.wf(),
            target.wf(),
        ensures
            res is Err <==> !contents_readable(self.repo.db.view(), target.view(), set![p@]),
            res matches Err(e) ==> e is Repository,
            res matches Ok(x) ==> x.0@ == p@ && writes_contents(self.repo.db.view(), target.view(), seq![x]),
    {
        let db = &self.repo.db;
        let ghost t = target.view();
        let f = match target.0.get(p) {
            Some(f) => f,
            None => {
                assert(!t.contains_key(p@));
                assert(set![p@].contains(p@));
                return Err(Error::Repository(String::from_str("a file to check out is not in the target")));
            },
        };
        assert(t[p@] == f@);
        let oid = match f.oid() {
            Ok(o) => o,
            Err(e) => {
                assert(set![p@].contains(p@));
                return Err(Error::Repository(String::from_str("a file to check out has no content id")));
            },
        };
        let blob: Blob = match db.retrieve(oid) {
            Ok(b) => b,
            Err(e) => {
                assert(set![p@].contains(p@));
                return Err(e);
            },
        };
        proof {
            let id = t[p@].1.unwrap();
            assert(retrieved_as::<Blob>(db.view(), id, blob@));
            assert(retrieved_as::<Blob>(db.view(), id, blob_of(db.view()[id])));
            assert forall|q: PathView| #[trigger] set![p@].contains(q) implies t.contains_key(q) && t[q].1 is Some
                && db.view().contains_key(t[q].1.unwrap()) && is_text_of::<Blob>(db.view()[t[q].1.unwrap()]) by {
                assert(q == p@);
            }
        }
        let x = (p.copy_key(), String::from_str(blob.content()));
        assert(seq![x][0] == x);
        Ok(x)
    }

    /// The writes that bring the files `curr` to those of `target`, and the
    /// files to remove.
    fn plan(&self, curr: &Rev, target: &Rev) -> (res: Result<CheckoutPlan, Error>)
        requires
            self.repo.wf(),
            curr.wf(),
            target.wf(),
        ensures
            res is Err <==> !contents_readable(self.repo.db.view(), target.view(), paths_to_write(curr.view(), target.view())),
            res matches Err(e) ==> e is Repository,
            res matches Ok(plan) ==> written_paths(plan.writes@) == paths_to_write(curr.view(), target.view())
                && writes_contents(self.repo.db.view(), target.view(), plan.writes@) && path_set(plan.removes@)
                == added_paths(target.view(), curr.view()),
    {
        let ghost db = self.repo.db.view();
        let ghost w = curr.view();
        let ghost t = target.view();
        let rev_diff = curr.diff(target)?;
        let ghost pending = rev_diff.added@ + rev_diff.modified@;
        assert(path_set(pending) == paths_to_write(w, t)) by {
            assert(pending.map_values(|p: RelPath| p@) =~= rev_diff.added@.map_values(|p: RelPath| p@)
                + rev_diff.modified@.map_values(|p: RelPath| p@));
            vstd::seq_lib::seq_to_set_distributes_over_add(
                rev_diff.added@.map_values(|p: RelPath| p@),
                rev_diff.modified@.map_values(|p: RelPath| p@),
            );
        }
        let mut writes: Vec<(RelPath, String)> = Vec::new();
        let na = rev_diff.added.len();
        let mut k: usize = 0;
        while k < na
            invariant
                k <= na,
                na == rev_diff.added@.len(),
                self.repo.wf(),
                db == self.repo.db.view(),
                target.wf(),
                t == target.view(),
                w == curr.view(),
                pending == rev_diff.added@ + rev_diff.modified@,
                path_set(pending) == paths_to_write(w, t),
                writes@.len() == k,
                forall|j: int| 0 <= j < k ==> #[trigger] writes@[j].0@ == rev_diff.added@[j]@,
                writes_contents(db, t, writes@),
                forall|j: int| 0 <= j < k ==> contents_readable(db, t, set![#[trigger] rev_diff.added@[j]@]),
            decreases na - k,
        {
            let x = match self.write_of(target, &rev_diff.added[k]) {
                Ok(x) => x,
                Err(e) => {
                    proof {
                        assert(pending[k as int] == rev_diff.added@[k as int]);
                        assert(path_set(pending).contains(pending[k as int]@)) by {
                            assert(pending.map_values(|q: RelPath| q@)[k as int] == pending[k as int]@);
                        }
                        lemma_readable_part(db, t, paths_to_write(w, t), rev_diff.added@[k as int]@);
                    }
                    return Err(e);
                },
            };
            let ghost before = writes@;
            writes.push(x);
            proof {
                assert(writes_contents(db, t, seq![x]));
                assert forall|j: int| 0 <= j < writes@.len() implies t.contains_key(#[trigger] writes@[j].0@) && writes@[j].1@ == crate::commands::checkout::blob_of(
                    db[t[writes@[j].0@].1.unwrap()]) by {
                    if j < k {
                        assert(writes@[j] == before[j]);
                    } else {
                        assert(writes@[j] == seq![x][0]);
                    }
                }
            }
            k = k + 1;
        }
        let nm = rev_diff.modified.len();
        let mut l: usize = 0;
        while l < nm
            invariant
                l <= nm,
                nm == rev_diff.modified@.len(),
                na == rev_diff.added@.len(),
                self.repo.wf(),
                db == self.repo.db.view(),
                target.wf(),
                t == target.view(),
                w == curr.view(),
                pending == rev_diff.added@ + rev_diff.modified@,
                path_set(pending) == paths_to_write(w, t),
                writes@.len() == na + l,
                forall|j: int| 0 <= j < na ==> #[trigger] writes@[j].0@ == rev_diff.added@[j]@,
                forall|j: int| 0 <= j < l ==> #[trigger] writes@[na + j].0@ == rev_diff.modified@[j]@,
                writes_contents(db, t, writes@),
                forall|j: int| 0 <= j < na ==> contents_readable(db, t, set![#[trigger] rev_diff.added@[j]@]),
                forall|j: int| 0 <= j < l ==> contents_readable(db, t, set![#[trigger] rev_diff.modified@[j]@]),
            decreases nm - l,
        {
            let x = match self.write_of(target, &rev_diff.modified[l]) {
                Ok(x) => x,
                Err(e) => {
                    proof {
                        assert(pending[na + l] == rev_diff.modified@[l as int]);
                        assert(path_set(pending).contains(pending[na + l]@)) by {
                            assert(pending.map_values(|q: RelPath| q@)[na + l] == pending[na + l]@);
                        }
                        lemma_readable_part(db, t, paths_to_write(w, t), rev_diff.modified@[l as int]@);
                    }
                    return Err(e);
                },
            };
            let ghost before = writes@;
            writes.push(x);
            proof {
                assert(writes_contents(db, t, seq![x]));
                assert forall|j: int| 0 <= j < writes@.len() implies t.contains_key(#[trigger] writes@[j].0@) && writes@[j].1@ == crate::commands::checkout::blob_of(
                    db[t[writes@[j].0@].1.unwrap()]) by {
                    if j < na + l {
                        assert(writes@[j] == before[j]);
                    } else {
                        assert(writes@[j] == seq![x][0]);
                    }
                }
                assert forall|j: int| 0 <= j < na implies #[trigger] writes@[j].0@ == rev_diff.added@[j]@ by {
                    assert(writes@[j] == before[j]);
                }
                assert forall|j: int| 0 <= j < l + 1 implies #[trigger] writes@[na + j].0@ == rev_diff.modified@[j]@ by {
                    if j < l {
                        assert(writes@[na + j] == before[na + j]);
                    }
                }
            }
            l = l + 1;
        }
        proof {
            let tv = pending.map_values(|q: RelPath| q@);
            assert(writes@.map_values(|x: (RelPath, String)| x.0@) =~= tv) by {
                assert forall|j: int| 0 <= j < tv.len() implies writes@.map_values(|x: (RelPath, String)| x.0@)[j] == tv[j] by {
                    if j >= na {
                        assert(writes@[na + (j - na)].0@ == rev_diff.modified@[j - na]@);
                    }
                }
            }
            assert forall|p: PathView| #[trigger] paths_to_write(w, t).contains(p) implies t.contains_key(p) && t[p].1 is Some
                && db.contains_key(t[p].1.unwrap()) && is_text_of::<Blob>(db[t[p].1.unwrap()]) by {
                assert(path_set(pending).contains(p));
                let j = choose|j: int| 0 <= j < tv.len() && #[trigger] tv[j] == p;
                if j < na {
                    assert(contents_readable(db, t, set![rev_diff.added@[j]@]));
                    assert(set![rev_diff.added@[j]@].contains(p));
                } else {
                    assert(contents_readable(db, t, set![rev_diff.modified@[j - na]@]));
                    assert(set![rev_diff.modified@[j - na]@].contains(p));
                }
            }
        }
        let removes = rev_diff.removed;
        Ok(CheckoutPlan { writes, removes })
    }
}

/// A path that cannot be read keeps a set holding it from being readable.
proof fn lemma_readable_part(db: Map<Seq<u8>, Seq<u8>>, t: Files, paths: Set<PathView>, p: PathView)
    requires
        !contents_readable(db, t, set![p]),
        paths.contains(p),
    ensures
        !contents_readable(db, t, paths),
{
    let q = choose|q: PathView| !(set![p].contains(q) ==> t.contains_key(q) && t[q].1 is Some && db.contains_key(
        t[q].1.unwrap(),
    ) && is_text_of::<Blob>(db[t[q].1.unwrap()]));
    assert(q == p);
}

/// After a checkout, the workspace holds exactly the paths of the target:
/// those it had, less the removed ones, and the written ones.
pub proof fn lemma_checkout_paths(w: Files, t: Files)
    ensures
        w.dom().difference(added_paths(t, w)).union(paths_to_write(w, t)) == t.dom(),
{
    assert(w.dom().difference(added_paths(t, w)).union(paths_to_write(w, t)) =~= t.dom());
}

} // verus!
