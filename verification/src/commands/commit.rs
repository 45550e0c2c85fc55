//! Recording the workspace as a new commit on the head's branch.
use vstd::prelude::*;
use crate::commands::status::head_files;
use crate::database::{is_text_of, retrieved_as, Object};
use crate::commands::log::{history, lemma_history_fuel, lemma_history_len, prepend};
use crate::dirtree::{below, lemma_tree_files_extend, listed, storable, store_tree};
use crate::error::{io_error, repository_error, workspace_error, Error};
use crate::head::HeadView;
use crate::objects::{blob_text, collides, is_object_text, Blob, DIRECTORY_MODE};
use crate::oid::{lemma_oid_len, sha256_digest, Oid};
use crate::repository::Repository;
use crate::revision::{
    added_paths, changed, commit_files, commit_of, is_diff, lemma_tree_files_listed, modified_paths, path_set,
    tree_files, Files, PathView, Rev, Revision,
};
use crate::table::{Key, Table};
use crate::workspace::{found_fails, found_files, FileView, FoundView, RelPath, Stat, Workspace};

verus! {

broadcast use lemma_oid_len;

/// A revision the workspace can hold: every file has a path and the mode of a
/// file.
pub open spec fn workspace_rev(w: Files) -> bool {
    forall|p: PathView| #[trigger] w.contains_key(p) ==> p.len() > 0 && w[p].3 != DIRECTORY_MODE
}

/// What a workspace lists from the files found in it, when none of them
/// fails, is a revision the workspace can hold.
pub proof fn lemma_listed_files_committable(ws: PathView, ignore: Set<Seq<char>>, fs: Seq<FoundView>)
    requires
        forall|i: int| 0 <= i < fs.len() ==> !found_fails(ws, ignore, #[trigger] fs[i]),
    ensures
        workspace_rev(found_files(ws, ignore, fs)),
    decreases fs.len(),
{
    if fs.len() > 0 {
        let p = fs.drop_last();
        assert forall|i: int| 0 <= i < p.len() implies !found_fails(ws, ignore, #[trigger] p[i]) by {
            assert(p[i] == fs[i]);
        }
        lemma_listed_files_committable(ws, ignore, p);
        assert(!found_fails(ws, ignore, fs[fs.len() - 1]));
    }
}

/// Nothing was added, removed or modified from `prev` to `w`.
pub open spec fn unchanged(prev: Files, w: Files) -> bool {
    &&& added_paths(prev, w).is_empty()
    &&& added_paths(w, prev).is_empty()
    &&& modified_paths(prev, w).is_empty()
}

/// The file at `p` has to be stored anew: it is new, or its time or mode changed.
pub open spec fn to_store(prev: Files, w: Files, p: PathView) -> bool {
    w.contains_key(p) && (!prev.contains_key(p) || changed(prev[p], w[p]))
}

/// The file `f` at `p` once its content `content` is stored.
pub open spec fn stored_file(p: PathView, f: FileView, content: Seq<char>) -> FileView {
    (p.last(), Some(sha256_digest(blob_text(content))), f.2, f.3)
}

/// The files a commit of the workspace `w` on top of `prev` records: those of
/// the workspace, each new or changed one with its content stored, the others
/// as `prev` had them.
pub open spec fn committed(prev: Files, w: Files, contents: Map<PathView, Seq<char>>) -> Files {
    Map::new(
        |p: PathView| w.contains_key(p),
        |p: PathView|
            if to_store(prev, w, p) {
                stored_file(p, w[p], contents[p])
            } else {
                prev[p]
            },
    )
}

/// After a commit of the workspace `w` with contents `contents` and message
/// `msg`, the database `db2` and branches `refs2` record it: the head's branch
/// points at a new commit whose parent is the branch's old commit and whose
/// files are those `committed` gives.
pub open spec fn recorded(
    db: Map<Seq<u8>, Seq<u8>>,
    refs: Map<Seq<char>, Seq<u8>>,
    head: HeadView,
    w: Files,
    contents: Map<PathView, Seq<char>>,
    msg: Seq<char>,
    db2: Map<Seq<u8>, Seq<u8>>,
    refs2: Map<Seq<char>, Seq<u8>>,
) -> bool {
    match head {
        HeadView::Branch(b) => match head_files(db, refs, head) {
            Some(prev) => {
                &&& !unchanged(prev, w)
                &&& db.submap_of(db2)
                &&& refs2.contains_key(b)
                &&& refs2 == refs.insert(b, refs2[b])
                &&& commit_of(db2[refs2[b]]).0 == Some(refs[b])
                &&& commit_of(db2[refs2[b]]).2 == msg
                &&& commit_files(db2, refs2[b]) == Some(committed(prev, w, contents))
                &&& forall|p: PathView| #[trigger] to_store(prev, w, p) ==> holds_blob(db2, contents[p])
            },
            None => false,
        },
        HeadView::Oid(_) => false,
    }
}

/// The commit command: a workspace and its repository.
pub struct Commit {
    pub ws: Workspace,
    pub repo: Repository,
}

impl Commit {
    pub fn build(ws: Workspace, repo: Repository) -> (res: Commit)
        ensures
            res.ws == ws,
            res.repo == repo,
    {
        Commit { ws, repo }
    }

    /// Records the workspace's files `curr`, whose contents are `contents`, as
    /// a new commit with `message` on the head's branch, and moves the branch
    /// to it. An error when the head is not on a branch that exists, the
    /// files of its commit cannot be listed, nothing changed, the content of a
    /// new or changed file is not given, or a different object is stored under
    /// the id of one to store.
    pub fn execute(&mut self, curr: &Rev, contents: &Table<RelPath, String>, message: String) -> (res: Result<(), Error>)
        requires
            old(self).repo.wf(),
            curr.wf(),
            contents.wf(),
            workspace_rev(curr.view()),
        ensures
            final(self).repo.wf(),
            final(self).ws == old(self).ws,
            final(self).repo.local_head@ == old(self).repo.local_head@,
            old(self).repo.db.view().submap_of(final(self).repo.db.view()),
            ({
                let db = old(self).repo.db.view();
                let refs = old(self).repo.refs.view();
                let head = old(self).repo.local_head@;
                let w = curr.view();
                let c = contents.view();
                let db2 = final(self).repo.db.view();
                &&& head is Oid ==> (res matches Err(e) && repository_error(e, "cannot run commit on non-branch head"@)
                    && db2 == db)
                &&& head is Branch && !refs.contains_key(head->Branch_0) ==> (res matches Err(e)
                    && repository_error(e, "branch not found"@) && db2 == db)
                &&& head_files(db, refs, head) is None ==> (res matches Err(e) && e is Repository && db2 == db)
                &&& head_files(db, refs, head) matches Some(prev) ==> {
                    &&& unchanged(prev, w) ==> (res matches Err(e) && workspace_error(
                        e,
                        "Workspace is clean. Nothing to commit"@,
                    ) && db2 == db)
                    &&& (exists|p: PathView| #[trigger] to_store(prev, w, p) && !c.contains_key(p)) ==> res is Err
                    &&& res matches Err(e) ==> {
                        &&& e is Io || e is Workspace || e is Repository
                        &&& e is Io ==> io_error(e, "cannot read the content of a file to commit"@) && exists|p: PathView|
                            #[trigger] to_store(prev, w, p) && !c.contains_key(p)
                        &&& e is Workspace ==> unchanged(prev, w)
                        &&& e is Repository ==> collides(db2)
                    }
                }
                &&& res is Err ==> final(self).repo.refs.view() == refs
                &&& res is Ok ==> recorded(db, refs, head, w, c, message@, final(self).repo.db.view(), final(self).repo.refs.view())
                &&& res is Ok ==> head is Branch && head_files(db, refs, head) is Some && commit_files(
                    db2,
                    final(self).repo.refs.view()[head->Branch_0],
                ) is Some
                &&& res is Ok ==> ({
                    let prev = head_files(db, refs, head).unwrap();
                    let m = commit_files(db2, final(self).repo.refs.view()[head->Branch_0]).unwrap();
                    &&& forall|p: PathView| #[trigger] m.contains_key(p) <==> w.contains_key(p)
                    &&& forall|p: PathView| #[trigger] w.contains_key(p) ==> m[p].2 == w[p].2 && m[p].3 == w[p].3
                    &&& forall|p: PathView|
                        #[trigger] w.contains_key(p) && (!prev.contains_key(p) || prev[p].2 != w[p].2 || prev[p].3 != w[p].3)
                            ==> c.contains_key(p) && m[p].1 == Some(sha256_digest(blob_text(c[p]))) && db2.contains_key(
                            sha256_digest(blob_text(c[p])),
                        ) && db2[sha256_digest(blob_text(c[p]))] == blob_text(c[p])
                    &&& forall|p: PathView|
                        #[trigger] w.contains_key(p) && prev.contains_key(p) && prev[p].2 == w[p].2 && prev[p].3 == w[p].3
                            ==> m[p] == prev[p]
                })
            }),
    {
        let ghost db0 = self.repo.db.view();
        let ghost refs0 = self.repo.refs.view();
        let head = self.repo.local_head.get()?;
        if !head.is_branch() {
            return Err(Error::Repository(String::from_str("cannot run commit on non-branch head")));
        }
        let branch = head.branch()?;
        let parent = self.repo.refs.get(branch)?;
        let prev_rev = {
            let prev_revision = Revision::build(&self.repo, &parent)?;
            prev_revision.into_rev()?
        };
        let ghost prev = prev_rev.view();
        assert(head_files(db0, refs0, self.repo.local_head@) == Some(prev));
        proof {
            lemma_tree_files_listed(db0, commit_of(db0[parent@]).1, usize::MAX as nat);
        }
        let rev_diff = prev_rev.diff(curr)?;
        proof {
            lemma_path_set_empty(rev_diff.added@);
            lemma_path_set_empty(rev_diff.removed@);
            lemma_path_set_empty(rev_diff.modified@);
        }
        if rev_diff.is_clean() {
            return Err(Error::Workspace(String::from_str("Workspace is clean. Nothing to commit")));
        }
        let next = store_files(&mut self.repo.db, &prev_rev, curr, contents)?;
        let ghost w = curr.view();
        let ghost c = contents.view();
        proof {
            assert forall|p: PathView| #[trigger] next.view().contains_key(p) implies p.len() > 0
                && next.view()[p].1 is Some && next.view()[p].3 != DIRECTORY_MODE by {
                assert(w.contains_key(p));
                if !to_store(prev, w, p) {
                    assert(prev.contains_key(p));
                }
            }
            assert(storable(next.view()));
        }
        let root_path = RelPath(Vec::new());
        assert(root_path@ =~= Seq::<Seq<char>>::empty());
        let ghost db1 = self.repo.db.view();
        let root = match store_tree(&mut self.repo.db, &next, &root_path) {
            Ok(o) => o,
            Err(e) => {
                proof {
                    vstd::map_lib::lemma_submap_of_trans(db0, db1, self.repo.db.view());
                }
                return Err(e);
            },
        };
        let ghost db2 = self.repo.db.view();
        proof {
            vstd::map_lib::lemma_submap_of_trans(db0, db1, db2);
            assert(tree_files(db2, root@, usize::MAX as nat) == Some(below(next.view(), Seq::empty())));
            assert forall|p: PathView| #[trigger] below(next.view(), Seq::empty()).contains_key(p) <==> committed(prev, w, c).contains_key(p) by {
                assert(Seq::<Seq<char>>::empty() + p =~= p);
            }
            assert forall|p: PathView| #[trigger] below(next.view(), Seq::empty()).contains_key(p) implies below(next.view(), Seq::empty())[p] == committed(prev, w, c)[p] by {
                assert(Seq::<Seq<char>>::empty() + p =~= p);
                if !to_store(prev, w, p) {
                    assert(prev.contains_key(p));
                }
            }
            assert(below(next.view(), Seq::empty()) =~= committed(prev, w, c));
        }
        let commit = crate::objects::Commit::new(Some(parent), root, message);
        let new_head = match self.repo.db.store(&commit) {
            Ok(o) => o,
            Err(e) => {
                proof {
                    let text = crate::objects::Commit::text_of(commit@);
                    assert(is_text_of::<crate::objects::Commit>(text));
                    assert(is_object_text(text));
                    assert(self.repo.db.view().contains_key(sha256_digest(text)));
                }
                return Err(e);
            },
        };
        // Reading the commit back identifies it as the commit just stored.
        let _read_back: Result<crate::objects::Commit, Error> = self.repo.db.retrieve(&new_head);
        let ghost db3 = self.repo.db.view();
        proof {
            vstd::map_lib::lemma_submap_of_trans(db0, db2, db3);
            assert(retrieved_as::<crate::objects::Commit>(db3, new_head@, commit@));
            assert(retrieved_as::<crate::objects::Commit>(db3, new_head@, commit_of(db3[new_head@])));
            assert(commit_of(db3[new_head@]) == commit@);
            lemma_tree_files_extend(db2, db3, root@, usize::MAX as nat);
        }
        let _ = self.repo.refs.set(branch, &new_head);
        proof {
            lemma_commit_records_files(
                db0,
                refs0,
                branch@,
                w,
                c,
                message@,
                self.repo.db.view(),
                self.repo.refs.view(),
            );
        }
        Ok(())
    }
}


/// `db` holds the blob of `content` under its id.
pub open spec fn holds_blob(db: Map<Seq<u8>, Seq<u8>>, content: Seq<char>) -> bool {
    db.contains_key(sha256_digest(blob_text(content))) && db[sha256_digest(blob_text(content))] == blob_text(content)
}

/// The files of the new commit before they are stored as trees: each file of
/// the workspace, new or changed ones with the id of their stored content.
pub open spec fn next_files(prev: Files, w: Files, contents: Map<PathView, Seq<char>>) -> Files {
    Map::new(
        |p: PathView| w.contains_key(p),
        |p: PathView|
            if to_store(prev, w, p) {
                (w[p].0, Some(sha256_digest(blob_text(contents[p]))), w[p].2, w[p].3)
            } else {
                prev[p]
            },
    )
}

/// Stores the content of each new or changed file of `curr` and returns the
/// files of the new commit. An error when the content of such a file is not
/// given, or a different object is stored under the id of a content.
fn store_files(
    db: &mut crate::database::Database,
    prev: &Rev,
    curr: &Rev,
    contents: &Table<RelPath, String>,
) -> (res: Result<Rev, Error>)
    requires
        old(db).wf(),
        prev.wf(),
        curr.wf(),
        contents.wf(),
    ensures
        final(db).wf(),
        old(db).view().submap_of(final(db).view()),
        res matches Ok(next) ==> next.wf() && next.view() == next_files(prev.view(), curr.view(), contents.view()),
        res is Ok ==> forall|p: PathView| #[trigger] to_store(prev.view(), curr.view(), p) ==> contents.view().contains_key(p),
        res is Ok ==> forall|p: PathView| #[trigger] to_store(prev.view(), curr.view(), p) ==> holds_blob(
            final(db).view(),
            contents.view()[p],
        ),
        (exists|p: PathView| #[trigger] to_store(prev.view(), curr.view(), p) && !contents.view().contains_key(p)) ==> res is Err,
        res matches Err(e) ==> (e is Io ==> io_error(e, "cannot read the content of a file to commit"@)
            && exists|p: PathView| #[trigger] to_store(prev.view(), curr.view(), p) && !contents.view().contains_key(p))
            && (e is Io || e is Repository) && (e is Repository ==> collides(final(db).view())),
{
    let ghost pv = prev.view();
    let ghost w = curr.view();
    let ghost c = contents.view();
    proof {
        curr.0.lemma_pairs();
    }
    let mut next = Rev::new();
    let n = curr.0.len();
    let mut i: usize = 0;
    while i < n
        invariant
            i <= n,
            n == curr.0.pairs().len(),
            curr.wf(),
            prev.wf(),
            contents.wf(),
            pv == prev.view(),
            w == curr.view(),
            c == contents.view(),
            db.wf(),
            old(db).view().submap_of(db.view()),
            next.wf(),
            forall|p: PathView| #[trigger] next.view().contains_key(p) <==> exists|j: int|
                0 <= j < i && curr.0.pairs()[j].0@ == p,
            forall|p: PathView| #[trigger] next.view().contains_key(p) ==> w.contains_key(p) && next.view()[p]
                == next_files(pv, w, c)[p],
            forall|p: PathView| #[trigger] next.view().contains_key(p) && to_store(pv, w, p) ==> c.contains_key(p),
            forall|p: PathView| #[trigger] next.view().contains_key(p) && to_store(pv, w, p) ==> holds_blob(db.view(), c[p]),
        decreases n - i,
    {
        proof {
            curr.0.lemma_pairs();
        }
        let pair = curr.0.pair(i);
        let p = &pair.0;
        let f = &pair.1;
        assert(w.contains_key(p@) && w[p@] == f@);
        let ghost before = next.view();
        let keep = match prev.0.get(p) {
            Some(g) => !(g.mtime() != f.mtime() || g.mode() != f.mode()),
            None => false,
        };
        assert(keep == !to_store(pv, w, p@));
        if keep {
            let g = match prev.0.get(p) {
                Some(g) => g.duplicate(),
                None => f.duplicate(),
            };
            next.0.insert(p.copy_key(), g);
        } else {
            let content = match contents.get(p) {
                Some(t) => t,
                None => {
                    return Err(Error::Io(String::from_str("cannot read the content of a file to commit")));
                },
            };
            let blob = Blob::new(content.clone());
            let ghost db0 = db.view();
            let oid = match db.store(&blob) {
                Ok(o) => o,
                Err(e) => {
                    proof {
                        let text = Blob::text_of(blob@);
                        assert(is_text_of::<Blob>(text));
                        assert(is_object_text(text));
                        assert(db.view().contains_key(sha256_digest(text)));
                    }
                    return Err(e);
                },
            };
            proof {
                vstd::map_lib::lemma_submap_of_trans(old(db).view(), db0, db.view());
                assert forall|q: PathView| #[trigger] next.view().contains_key(q) && to_store(pv, w, q) implies holds_blob(
                    db.view(),
                    c[q],
                ) by {
                    assert(holds_blob(db0, c[q]));
                }
            }
            let mut file = f.duplicate();
            file.set_oid(oid);
            next.0.insert(p.copy_key(), file);
        }
        proof {
            curr.0.lemma_pairs();
            assert forall|q: PathView| #[trigger] next.view().contains_key(q) <==> exists|j: int|
                0 <= j < i + 1 && curr.0.pairs()[j].0@ == q by {
                if q == p@ {
                    assert(curr.0.pairs()[i as int].0@ == q);
                }
                if exists|j: int| 0 <= j < i + 1 && curr.0.pairs()[j].0@ == q {
                    let j = choose|j: int| 0 <= j < i + 1 && curr.0.pairs()[j].0@ == q;
                    if j < i {
                        assert(before.contains_key(q));
                    }
                }
            }
        }
        i = i + 1;
    }
    proof {
        curr.0.lemma_pairs();
        assert forall|p: PathView| #[trigger] next.view().contains_key(p) <==> w.contains_key(p) by {
            if w.contains_key(p) {
                let j = choose|j: int| 0 <= j < curr.0.pairs().len() && curr.0.pairs()[j].0@ == p;
            }
        }
        assert(next.view() =~= next_files(pv, w, c));
        assert forall|p: PathView| #[trigger] to_store(pv, w, p) implies c.contains_key(p) && holds_blob(db.view(), c[p]) by {
            assert(next.view().contains_key(p));
        }
    }
    Ok(next)
}


/// What a commit records: once a commit of the workspace `w` with contents
/// `contents` is recorded on the branch `b`, the new commit lists exactly the
/// workspace's paths, each with the workspace's time and mode; a file that is
/// new, or whose time or mode changed, has the id of the blob of its content,
/// and that blob is stored; any other file is recorded as the branch's old
/// commit had it.
pub proof fn lemma_commit_records_files(
    db: Map<Seq<u8>, Seq<u8>>,
    refs: Map<Seq<char>, Seq<u8>>,
    b: Seq<char>,
    w: Files,
    contents: Map<PathView, Seq<char>>,
    msg: Seq<char>,
    db2: Map<Seq<u8>, Seq<u8>>,
    refs2: Map<Seq<char>, Seq<u8>>,
)
    requires
        recorded(db, refs, HeadView::Branch(b), w, contents, msg, db2, refs2),
    ensures
        head_files(db, refs, HeadView::Branch(b)) is Some,
        commit_files(db2, refs2[b]) is Some,
        ({
            let prev = head_files(db, refs, HeadView::Branch(b)).unwrap();
            let m = commit_files(db2, refs2[b]).unwrap();
            &&& forall|p: PathView| #[trigger] m.contains_key(p) <==> w.contains_key(p)
            &&& forall|p: PathView| #[trigger] w.contains_key(p) ==> m[p].2 == w[p].2 && m[p].3 == w[p].3
            &&& forall|p: PathView|
                #[trigger] w.contains_key(p) && (!prev.contains_key(p) || prev[p].2 != w[p].2 || prev[p].3 != w[p].3)
                    ==> m[p].1 == Some(sha256_digest(blob_text(contents[p]))) && db2.contains_key(
                    sha256_digest(blob_text(contents[p])),
                ) && db2[sha256_digest(blob_text(contents[p]))] == blob_text(contents[p])
            &&& forall|p: PathView|
                #[trigger] w.contains_key(p) && prev.contains_key(p) && prev[p].2 == w[p].2 && prev[p].3 == w[p].3
                    ==> m[p] == prev[p]
        }),
{
    let prev = head_files(db, refs, HeadView::Branch(b)).unwrap();
    let m = commit_files(db2, refs2[b]).unwrap();
    assert forall|p: PathView|
        #[trigger] w.contains_key(p) && (!prev.contains_key(p) || prev[p].2 != w[p].2 || prev[p].3 != w[p].3)
            implies m[p].1 == Some(sha256_digest(blob_text(contents[p]))) && holds_blob(db2, contents[p]) by {
        assert(to_store(prev, w, p));
    }
}

/// A list of paths is empty exactly when the set of its paths is.
pub proof fn lemma_path_set_empty(v: Seq<RelPath>)
    ensures
        path_set(v).is_empty() <==> v.len() == 0,
{
    if v.len() > 0 {
        assert(path_set(v).contains(v[0]@)) by {
            assert(v.map_values(|p: RelPath| p@)[0] == v[0]@);
        }
    } else {
        assert(path_set(v) =~= Set::empty());
    }
}


/// A commit leaves nothing to report: the files it records show no change
/// against the workspace it recorded.
pub proof fn lemma_committed_unchanged(prev: Files, w: Files, contents: Map<PathView, Seq<char>>)
    ensures
        unchanged(committed(prev, w, contents), w),
{
    let m = committed(prev, w, contents);
    assert(added_paths(m, w) =~= Set::empty());
    assert(added_paths(w, m) =~= Set::empty());
    assert(modified_paths(m, w) =~= Set::empty());
}

/// Status after commit: once a commit of the workspace `w` is recorded, the
/// head's files are the committed ones, and comparing them with the same
/// workspace lists nothing added, removed or modified.
pub proof fn lemma_status_clean_after_commit(
    db: Map<Seq<u8>, Seq<u8>>,
    refs: Map<Seq<char>, Seq<u8>>,
    head: HeadView,
    w: Files,
    contents: Map<PathView, Seq<char>>,
    msg: Seq<char>,
    db2: Map<Seq<u8>, Seq<u8>>,
    refs2: Map<Seq<char>, Seq<u8>>,
    d: crate::revision::RevDiff,
)
    requires
        recorded(db, refs, head, w, contents, msg, db2, refs2),
        head_files(db2, refs2, head) is Some ==> is_diff(head_files(db2, refs2, head).unwrap(), w, d),
    ensures
        head_files(db2, refs2, head) is Some,
        path_set(d.added@).is_empty(),
        path_set(d.removed@).is_empty(),
        path_set(d.modified@).is_empty(),
{
    let prev = head_files(db, refs, head).unwrap();
    lemma_committed_unchanged(prev, w, contents);
}

/// The history of a commit reads the same in a database that holds more.
pub proof fn lemma_history_extend(db: Map<Seq<u8>, Seq<u8>>, db2: Map<Seq<u8>, Seq<u8>>, id: Seq<u8>, f: nat)
    requires
        db.submap_of(db2),
        history(db, id, f) is Some,
    ensures
        history(db2, id, f) == history(db, id, f),
    decreases f,
{
    assert(db2[id] == db[id]);
    let c = commit_of(db[id]);
    if let Some(p) = c.0 {
        lemma_history_extend(db, db2, p, (f - 1) as nat);
    }
}

/// Log after commit: once a commit is recorded on a branch, the branch's
/// history is the new commit followed by the history the branch had.
pub proof fn lemma_log_after_commit(
    db: Map<Seq<u8>, Seq<u8>>,
    refs: Map<Seq<char>, Seq<u8>>,
    b: Seq<char>,
    w: Files,
    contents: Map<PathView, Seq<char>>,
    msg: Seq<char>,
    db2: Map<Seq<u8>, Seq<u8>>,
    refs2: Map<Seq<char>, Seq<u8>>,
    f: nat,
)
    requires
        recorded(db, refs, HeadView::Branch(b), w, contents, msg, db2, refs2),
        history(db, refs[b], f) is Some,
    ensures
        history(db2, refs2[b], f + 1) == prepend(
            seq![(refs2[b], commit_of(db2[refs2[b]]))],
            history(db, refs[b], f),
        ),
{
    lemma_history_extend(db, db2, refs[b], f);
    let id = refs2[b];
    assert(commit_files(db2, id) is Some);
    assert(db2.contains_key(id) && is_text_of::<crate::objects::Commit>(db2[id]));
}

/// Log after commit, as the log command reads it: once a commit is recorded
/// on a branch, the branch's history, followed through as many commits as
/// there are stored objects, is the new commit followed by the history the
/// branch had.
pub proof fn lemma_log_command_after_commit(
    db: Map<Seq<u8>, Seq<u8>>,
    refs: Map<Seq<char>, Seq<u8>>,
    b: Seq<char>,
    w: Files,
    contents: Map<PathView, Seq<char>>,
    msg: Seq<char>,
    db2: Map<Seq<u8>, Seq<u8>>,
    refs2: Map<Seq<char>, Seq<u8>>,
)
    requires
        recorded(db, refs, HeadView::Branch(b), w, contents, msg, db2, refs2),
        db2.dom().finite(),
        history(db, refs[b], db.len()) is Some,
    ensures
        history(db2, refs2[b], db2.len()) == prepend(
            seq![(refs2[b], commit_of(db2[refs2[b]]))],
            history(db, refs[b], db.len()),
        ),
{
    let f = db.len();
    lemma_log_after_commit(db, refs, b, w, contents, msg, db2, refs2, f);
    lemma_history_len(db2, refs2[b], f + 1);
    lemma_history_fuel(db2, refs2[b], f + 1, db2.len());
}

} // verus!
