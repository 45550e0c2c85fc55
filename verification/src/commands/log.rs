//! The history of a branch: its commits from the newest back to the first.
use vstd::prelude::*;
use crate::database::{is_text_of, retrieved_as};
use crate::error::Error;
use crate::objects::{Commit, CommitView};
use crate::oid::{lemma_oid_len, Oid};
use crate::repository::Repository;
use crate::revision::commit_of;

verus! {

broadcast use lemma_oid_len;

/// The commits from the one stored under `id` back through their parents,
/// each with its id: `None` when one of them is not a stored commit, or there
/// are more than `fuel`.
pub open spec fn history(db: Map<Seq<u8>, Seq<u8>>, id: Seq<u8>, fuel: nat) -> Option<Seq<(Seq<u8>, CommitView)>>
    decreases fuel,
{
    if fuel == 0 || !db.contains_key(id) || !is_text_of::<Commit>(db[id]) {
        None
    } else {
        let c = commit_of(db[id]);
        match c.0 {
            None => Some(seq![(id, c)]),
            Some(p) => match history(db, p, (fuel - 1) as nat) {
                None => None,
                Some(rest) => Some(seq![(id, c)] + rest),
            },
        }
    }
}

proof fn lemma_history_step(db: Map<Seq<u8>, Seq<u8>>, id: Seq<u8>, f: nat, c: CommitView)
    requires
        f > 0,
        retrieved_as::<Commit>(db, id, c),
        c == commit_of(db[id]),
    ensures
        history(db, id, f) == (match c.0 {
            None => Some(seq![(id, c)]),
            Some(p) => prepend(seq![(id, c)], history(db, p, (f - 1) as nat)),
        }),
{
}

proof fn lemma_history_missing(db: Map<Seq<u8>, Seq<u8>>, id: Seq<u8>, f: nat)
    requires
        f == 0 || !db.contains_key(id) || !is_text_of::<Commit>(db[id]),
    ensures
        history(db, id, f) is None,
{
}

proof fn lemma_prepend_assoc(a: Seq<(Seq<u8>, CommitView)>, b: Seq<(Seq<u8>, CommitView)>, o: Option<Seq<(Seq<u8>, CommitView)>>)
    ensures
        prepend(a, prepend(b, o)) == prepend(a + b, o),
{
    match o {
        Some(rest) => {
            assert(a + (b + rest) =~= (a + b) + rest);
        },
        None => {},
    }
}

/// A history that exists at one fuel is the same at any fuel as large as its
/// length.
pub proof fn lemma_history_fuel(db: Map<Seq<u8>, Seq<u8>>, id: Seq<u8>, f: nat, f2: nat)
    requires
        history(db, id, f) is Some,
        f2 >= history(db, id, f).unwrap().len(),
    ensures
        history(db, id, f2) == history(db, id, f),
    decreases f,
{
    let c = commit_of(db[id]);
    if let Some(p) = c.0 {
        let rest = history(db, p, (f - 1) as nat).unwrap();
        assert(history(db, id, f).unwrap() == seq![(id, c)] + rest);
        lemma_history_fuel(db, p, (f - 1) as nat, (f2 - 1) as nat);
    }
}

/// Each suffix of a history is the history of its first commit, at a fuel
/// that many steps smaller.
proof fn lemma_history_suffix(db: Map<Seq<u8>, Seq<u8>>, id: Seq<u8>, f: nat, k: int)
    requires
        history(db, id, f) is Some,
        0 <= k < history(db, id, f).unwrap().len(),
    ensures
        f - k >= 1,
        db.contains_key(history(db, id, f).unwrap()[k].0),
        history(db, history(db, id, f).unwrap()[k].0, (f - k) as nat) == Some(history(db, id, f).unwrap().skip(k)),
    decreases f,
{
    let s = history(db, id, f).unwrap();
    let c = commit_of(db[id]);
    if k == 0 {
        assert(s.skip(0) =~= s);
    } else {
        let p = c.0.unwrap();
        let rest = history(db, p, (f - 1) as nat).unwrap();
        assert(s == seq![(id, c)] + rest);
        lemma_history_suffix(db, p, (f - 1) as nat, k - 1);
        assert(s[k] == rest[k - 1]);
        assert(s.skip(k) =~= rest.skip(k - 1));
    }
}

/// A history holds no commit twice.
proof fn lemma_history_distinct(db: Map<Seq<u8>, Seq<u8>>, id: Seq<u8>, f: nat, a: int, b: int)
    requires
        history(db, id, f) is Some,
        0 <= a < b < history(db, id, f).unwrap().len(),
    ensures
        history(db, id, f).unwrap()[a].0 != history(db, id, f).unwrap()[b].0,
{
    let s = history(db, id, f).unwrap();
    lemma_history_suffix(db, id, f, a);
    lemma_history_suffix(db, id, f, b);
    lemma_history_suffix(db, id, f, s.len() - 1);
    if s[a].0 == s[b].0 {
        lemma_history_fuel(db, s[a].0, (f - b) as nat, (f - a) as nat);
        assert(s.skip(a).len() != s.skip(b).len());
    }
}

/// The ids of a history.
pub open spec fn history_ids(s: Seq<(Seq<u8>, CommitView)>) -> Seq<Seq<u8>> {
    s.map_values(|x: (Seq<u8>, CommitView)| x.0)
}

/// A history holds no commit twice, each a stored one, so it is no longer
/// than the number of stored objects.
pub proof fn lemma_history_len(db: Map<Seq<u8>, Seq<u8>>, id: Seq<u8>, f: nat)
    requires
        history(db, id, f) is Some,
        db.dom().finite(),
    ensures
        history(db, id, f).unwrap().len() <= db.len(),
{
    let s = history(db, id, f).unwrap();
    let ids = history_ids(s);
    assert(ids.no_duplicates()) by {
        assert forall|i: int, j: int| 0 <= i < ids.len() && 0 <= j < ids.len() && i != j implies ids[i] != ids[j] by {
            if i < j {
                lemma_history_distinct(db, id, f, i, j);
            } else {
                lemma_history_distinct(db, id, f, j, i);
            }
        }
    }
    ids.unique_seq_to_set();
    assert(ids.to_set().subset_of(db.dom())) by {
        assert forall|x: Seq<u8>| ids.to_set().contains(x) implies db.dom().contains(x) by {
            let i = choose|i: int| 0 <= i < ids.len() && ids[i] == x;
            lemma_history_suffix(db, id, f, i);
        }
    }
    vstd::set_lib::lemma_len_subset(ids.to_set(), db.dom());
}

/// The ids and views of a list of commits.
pub open spec fn log_views(v: Seq<(Oid, Commit)>) -> Seq<(Seq<u8>, CommitView)> {
    v.map_values(|x: (Oid, Commit)| (x.0@, x.1@))
}

/// `o` with `r` in front of what it holds.
pub open spec fn prepend(r: Seq<(Seq<u8>, CommitView)>, o: Option<Seq<(Seq<u8>, CommitView)>>) -> Option<Seq<(Seq<u8>, CommitView)>> {
    match o {
        Some(rest) => Some(r + rest),
        None => None,
    }
}

/// The log command: a repository.
pub struct Log {
    pub repo: Repository,
}

impl Log {
    pub fn build(repo: Repository) -> (res: Log)
        ensures
            res.repo == repo,
    {
        Log { repo }
    }

    /// The newest commit of `branch`, from which its history can be followed;
    /// an error when the branch does not exist or its commit is not stored.
    pub fn node(&self, branch: &str) -> (res: Result<Node<'_>, Error>)
        requires
            self.repo.wf(),
        ensures
            res is Ok <==> self.repo.refs.view().contains_key(branch@) && self.repo.db.view().contains_key(
                self.repo.refs.view()[branch@],
            ) && is_text_of::<Commit>(self.repo.db.view()[self.repo.refs.view()[branch@]]),
            res matches Ok(n) ==> n.wf() && n.db_view() == self.repo.db.view() && n.oid_view()
                == self.repo.refs.view()[branch@] && n.commit_view() == commit_of(
                self.repo.db.view()[n.oid_view()],
            ),
            res matches Err(e) ==> e is Repository,
    {
        let oid = self.repo.refs.get(branch)?;
        let commit: Commit = self.repo.db.retrieve(&oid)?;
        proof {
            assert(retrieved_as::<Commit>(self.repo.db.view(), oid@, commit@));
            assert(retrieved_as::<Commit>(self.repo.db.view(), oid@, commit_of(self.repo.db.view()[oid@])));
        }
        Ok(Node { repo: &self.repo, oid, commit })
    }

    /// The commits of `branch`, from its newest back to its first. An error
    /// when the branch does not exist, one of the commits is not stored, or
    /// the history is longer than the number of stored objects, which only a
    /// cycle of parents can make it.
    pub fn execute(&self, branch: &str) -> (res: Result<Vec<(Oid, Commit)>, Error>)
        requires
            self.repo.wf(),
        ensures
            res is Ok <==> self.repo.refs.view().contains_key(branch@) && history(
                self.repo.db.view(),
                self.repo.refs.view()[branch@],
                self.repo.db.view().len(),
            ) is Some,
            res matches Ok(v) ==> log_views(v@) == history(
                self.repo.db.view(),
                self.repo.refs.view()[branch@],
                self.repo.db.view().len(),
            ).unwrap(),
            res matches Err(e) ==> e is Repository,
    {
        let db = &self.repo.db;
        let ghost dbv = db.view();
        let start = self.repo.refs.get(branch)?;
        let fuel = db.len();
        let ghost total = history(dbv, start@, fuel as nat);
        let mut result: Vec<(Oid, Commit)> = Vec::new();
        let mut leaf = start;
        let mut steps: usize = 0;
        assert(log_views(result@) =~= Seq::empty());
        assert(prepend(Seq::empty(), history(dbv, leaf@, fuel as nat)) == total) by {
            match history(dbv, leaf@, fuel as nat) {
                Some(rest) => {
                    assert(Seq::<(Seq<u8>, CommitView)>::empty() + rest =~= rest);
                },
                None => {},
            }
        }
        loop
            invariant
                db.wf(),
                dbv == db.view(),
                fuel == dbv.len(),
                steps <= fuel,
                result@.len() == steps,
                dbv == self.repo.db.view(),
                self.repo.refs.view().contains_key(branch@),
                start@ == self.repo.refs.view()[branch@],
                total == history(dbv, start@, fuel as nat),
                total == prepend(log_views(result@), history(dbv, leaf@, (fuel - steps) as nat)),
            decreases fuel - steps,
        {
            let ghost f = (fuel - steps) as nat;
            if steps >= fuel {
                proof {
                    lemma_history_missing(dbv, leaf@, f);
                }
                return Err(Error::Repository(String::from_str("history longer than the stored objects")));
            }
            let commit: Commit = match db.retrieve(&leaf) {
                Ok(c) => c,
                Err(e) => {
                    proof {
                        lemma_history_missing(dbv, leaf@, f);
                    }
                    return Err(e);
                },
            };
            proof {
                assert(retrieved_as::<Commit>(dbv, leaf@, commit@));
                assert(retrieved_as::<Commit>(dbv, leaf@, commit_of(dbv[leaf@])));
                lemma_history_step(dbv, leaf@, f, commit@);
            }
            let parent = *commit.parent();
            let ghost before = log_views(result@);
            let ghost head = seq![(leaf@, commit@)];
            result.push((leaf, commit));
            steps = steps + 1;
            proof {
                assert(log_views(result@) =~= before + head);
            }
            match parent {
                None => {
                    proof {
                        lemma_prepend_assoc(before, head, Some(Seq::empty()));
                        assert(head + Seq::<(Seq<u8>, CommitView)>::empty() =~= head);
                        assert(before + head + Seq::<(Seq<u8>, CommitView)>::empty() =~= before + head);
                    }
                    return Ok(result);
                },
                Some(p) => {
                    proof {
                        lemma_prepend_assoc(before, head, history(dbv, p@, (f - 1) as nat));
                    }
                    leaf = p;
                },
            }
        }
    }
}

/// A commit of a history, with the repository it is read from.
pub struct Node<'a> {
    repo: &'a Repository,
    oid: Oid,
    commit: Commit,
}

impl<'a> Node<'a> {
    pub closed spec fn wf(&self) -> bool {
        self.repo.wf()
    }

    pub closed spec fn db_view(&self) -> Map<Seq<u8>, Seq<u8>> {
        self.repo.db.view()
    }

    pub closed spec fn oid_view(&self) -> Seq<u8> {
        self.oid@
    }

    pub closed spec fn commit_view(&self) -> CommitView {
        self.commit@
    }

    pub fn commit(&self) -> (res: &Commit)
        ensures
            res@ == self.commit_view(),
    {
        &self.commit
    }

    pub fn oid(&self) -> (res: &Oid)
        ensures
            res@ == self.oid_view(),
    {
        &self.oid
    }

    /// The node of the commit's parent: `None` when the commit has none, or
    /// the parent is not a stored commit.
    pub fn next(&mut self) -> (res: Option<Node<'a>>)
        requires
            old(self).wf(),
        ensures
            *final(self) == *old(self),
            res is Some <==> (old(self).commit_view().0 matches Some(p) && old(self).db_view().contains_key(p)
                && is_text_of::<Commit>(old(self).db_view()[p])),
            res matches Some(n) ==> n.wf() && n.db_view() == old(self).db_view() && Some(n.oid_view())
                == old(self).commit_view().0 && n.commit_view() == commit_of(old(self).db_view()[n.oid_view()]),
    {
        match self.commit.parent() {
            Some(oid) => {
                let parent: Commit = match self.repo.db.retrieve(oid) {
                    Ok(c) => c,
                    Err(_) => {
                        return None;
                    },
                };
                proof {
                    let db = self.repo.db.view();
                    assert(retrieved_as::<Commit>(db, oid@, parent@));
                    assert(retrieved_as::<Commit>(db, oid@, commit_of(db[oid@])));
                }
                Some(Node { repo: self.repo, oid: *oid, commit: parent })
            },
            None => None,
        }
    }
}

} // verus!
