//! The repository: its objects, its branches and its head.
use vstd::prelude::*;
use crate::database::{is_text_of, Database, Object};
use crate::error::{repository_error, Error};
use crate::head::{Head, HeadView};
use crate::objects::{Commit, Tree};
use crate::oid::{lemma_oid_len, oid_text, sha256_digest, Oid};
use crate::codec::has_at;
use crate::table::{Key, Table};

verus! {

broadcast use lemma_oid_len;

/// The id whose text is `t`.
pub open spec fn oid_of(t: Seq<u8>) -> Seq<u8> {
    choose|v: Seq<u8>| v.len() == 32 && oid_text(v) == t
}

/// Whether `t` is the text of an id.
pub open spec fn is_oid_text(t: Seq<u8>) -> bool {
    exists|v: Seq<u8>| v.len() == 32 && oid_text(v) == t
}

/// The branches named in `entries`, each pointing at the id its text holds;
/// a later entry wins over an earlier one with the same name.
pub open spec fn refs_loaded(entries: Seq<(Seq<char>, Seq<u8>)>) -> Map<Seq<char>, Seq<u8>>
    decreases entries.len(),
{
    if entries.len() == 0 {
        Map::empty()
    } else {
        refs_loaded(entries.drop_last()).insert(entries.last().0, oid_of(entries.last().1))
    }
}

/// The id whose text is exactly `t`, if there is one.
pub fn oid_from_text(t: &[u8]) -> (res: Option<Oid>)
    ensures
        res is Some <==> is_oid_text(t@),
        res matches Some(o) ==> o@ == oid_of(t@),
{
    proof {
        assert forall|v: Seq<u8>| v.len() == 32 && oid_text(v) == t@ implies #[trigger] has_at(t@, 0, oid_text(v)) by {
            assert(t@.subrange(0, oid_text(v).len() as int) =~= oid_text(v));
        }
        if is_oid_text(t@) {
            let v = oid_of(t@);
            assert(has_at(t@, 0, oid_text(v)));
        }
    }
    match Oid::read_json(t, 0) {
        Some((o, end)) => {
            if end == t.len() {
                proof {
                    assert(t@.subrange(0, end as int) =~= t@);
                    assert(o@.len() == 32 && oid_text(o@) == t@);
                    assert(is_oid_text(t@));
                    let v = oid_of(t@);
                    assert(has_at(t@, 0, oid_text(v)));
                }
                Some(o)
            } else {
                proof {
                    if is_oid_text(t@) {
                        let v = oid_of(t@);
                        assert(has_at(t@, 0, oid_text(v)));
                    }
                }
                None
            }
        },
        None => None,
    }
}

/// The branches: each name points at a commit id.
pub struct Refs {
    table: Table<String, Oid>,
}

impl Refs {
    pub closed spec fn wf(&self) -> bool {
        self.table.wf()
    }

    pub closed spec fn view(&self) -> Map<Seq<char>, Seq<u8>> {
        self.table.view()
    }

    /// No branches.
    pub fn new() -> (res: Refs)
        ensures
            res.wf(),
            res.view() == Map::<Seq<char>, Seq<u8>>::empty(),
    {
        Refs { table: Table::new() }
    }

    /// The branches named in `entries`, each with the text of the id it points
    /// at; an error when one of the texts is not the text of an id.
    pub fn build(entries: &Vec<(String, Vec<u8>)>) -> (res: Result<Refs, Error>)
        ensures
            res is Err <==> exists|i: int| 0 <= i < entries@.len() && !is_oid_text(#[trigger] entries@[i].1@),
            res matches Err(e) ==> repository_error(e, "cannot parse a branch"@),
            res matches Ok(r) ==> r.wf() && r.view() == refs_loaded(
                entries@.map_values(|x: (String, Vec<u8>)| (x.0@, x.1@)),
            ),
    {
        let ghost ev = entries@.map_values(|x: (String, Vec<u8>)| (x.0@, x.1@));
        let mut refs = Refs::new();
        let n = entries.len();
        let mut i: usize = 0;
        assert(ev.take(0) =~= Seq::<(Seq<char>, Seq<u8>)>::empty());
        while i < n
            invariant
                i <= n,
                n == entries@.len(),
                ev == entries@.map_values(|x: (String, Vec<u8>)| (x.0@, x.1@)),
                refs.wf(),
                refs.view() == refs_loaded(ev.take(i as int)),
                forall|j: int| 0 <= j < i ==> is_oid_text(#[trigger] entries@[j].1@),
            decreases n - i,
        {
            let (name, text) = &entries[i];
            let oid = match oid_from_text(text.as_slice()) {
                Some(o) => o,
                None => {
                    return Err(Error::Repository(String::from_str("cannot parse a branch")));
                },
            };
            assert(ev.take(i + 1).drop_last() =~= ev.take(i as int));
            assert(ev.take(i + 1).last() == (name@, text@));
            let _ = refs.set(name.as_str(), &oid);
            i = i + 1;
        }
        assert(ev.take(n as int) =~= ev);
        Ok(refs)
    }

    /// Whether the branch exists.
    pub fn contains(&self, branch: &str) -> (res: bool)
        requires
            self.wf(),
        ensures
            res == self.view().contains_key(branch@),
    {
        let k = String::from_str(branch);
        self.table.contains(&k)
    }

    /// The commit the branch points at; an error when there is no such branch.
    pub fn get(&self, branch: &str) -> (res: Result<Oid, Error>)
        requires
            self.wf(),
        ensures
            res matches Ok(oid) ==> self.view().contains_key(branch@) && oid@ == self.view()[branch@],
            res is Err <==> !self.view().contains_key(branch@),
            res matches Err(e) ==> repository_error(e, "branch not found"@),
    {
        let k = String::from_str(branch);
        match self.table.get(&k) {
            Some(oid) => Ok(*oid),
            None => Err(Error::Repository(String::from_str("branch not found"))),
        }
    }

    /// Points the branch at `oid`, creating it if needed.
    pub fn set(&mut self, branch: &str, oid: &Oid) -> (res: Result<(), Error>)
        requires
            old(self).wf(),
        ensures
            final(self).wf(),
            res is Ok,
            final(self).view() == old(self).view().insert(branch@, oid@),
    {
        let k = String::from_str(branch);
        self.table.insert(k, *oid);
        Ok(())
    }

    /// The names of the branches.
    pub fn list_branches(&self) -> (res: Result<Vec<String>, Error>)
        requires
            self.wf(),
        ensures
            res matches Ok(names) && names@.len() == self.view().len()
                && (forall|i: int, j: int| 0 <= i < j < names@.len() ==> names@[i]@ != names@[j]@)
                && (forall|b: Seq<char>| #[trigger] self.view().contains_key(b) <==> exists|i: int|
                0 <= i < names@.len() && names@[i]@ == b),
    {
        proof {
            self.table.lemma_pairs();
        }
        let n = self.table.len();
        let mut names: Vec<String> = Vec::new();
        let mut i: usize = 0;
        while i < n
            invariant
                i <= n,
                n == self.table.pairs().len(),
                self.wf(),
                names@.len() == i,
                forall|j: int| 0 <= j < i ==> #[trigger] names@[j]@ == self.table.pairs()[j].0@,
            decreases n - i,
        {
            names.push(self.table.pair(i).0.copy_key());
            i = i + 1;
        }
        proof {
            self.table.lemma_pairs();
            assert forall|b: Seq<char>| #[trigger] self.view().contains_key(b) <==> exists|i: int|
                0 <= i < names@.len() && names@[i]@ == b by {
                if self.view().contains_key(b) {
                    let j = choose|j: int| 0 <= j < self.table.pairs().len() && self.table.pairs()[j].0@ == b;
                    assert(names@[j]@ == b);
                }
                if exists|i: int| 0 <= i < names@.len() && names@[i]@ == b {
                    let j = choose|j: int| 0 <= j < names@.len() && names@[j]@ == b;
                    assert(self.table.pairs()[j].0@ == b);
                }
            }
        }
        Ok(names)
    }

    /// The `i`-th branch and its commit.
    pub fn branch_at(&self, i: usize) -> (res: (&String, &Oid))
        requires
            self.wf(),
            i < self.view().len(),
        ensures
            self.view().contains_key(res.0@),
            self.view()[res.0@] == res.1@,
    {
        proof {
            self.table.lemma_pairs();
        }
        let p = self.table.pair(i);
        (&p.0, &p.1)
    }

    /// The number of branches.
    pub fn len(&self) -> (res: usize)
        requires
            self.wf(),
        ensures
            res == self.view().len(),
    {
        proof {
            self.table.lemma_pairs();
        }
        self.table.len()
    }
}

impl Head {
    /// A copy of the head.
    pub fn duplicate(&self) -> (res: Head)
        ensures
            res@ == self@,
    {
        match self {
            Head::Oid(o) => Head::Oid(*o),
            Head::Branch(b) => Head::Branch(b.clone()),
        }
    }
}

/// The head of the workspace, as the repository keeps it.
pub struct LocalHead {
    head: Head,
}

impl View for LocalHead {
    type V = HeadView;

    closed spec fn view(&self) -> HeadView {
        self.head@
    }
}

pub open spec fn main_branch() -> Seq<char> {
    seq!['m', 'a', 'i', 'n']
}

impl LocalHead {
    /// The head read from its stored text; an error when the text is not the
    /// text of a head.
    pub fn build(text: &[u8]) -> (res: Result<LocalHead, Error>)
        ensures
            res matches Ok(lh) ==> Head::text_of(lh@) == text@ && Head::valid_view(lh@),
            forall|v: HeadView| Head::valid_view(v) && Head::text_of(v) == text@ ==> (res matches Ok(lh) && lh@ == v),
            res is Err <==> !is_text_of::<Head>(text@),
            res matches Err(e) ==> repository_error(e, "cannot parse head"@),
    {
        match Head::from_json(text) {
            Some(head) => Ok(LocalHead { head }),
            None => Err(Error::Repository(String::from_str("cannot parse head"))),
        }
    }

    /// A head on the branch `main`.
    pub fn init() -> (res: LocalHead)
        ensures
            res@ == HeadView::Branch(main_branch()),
    {
        proof {
            reveal_strlit("main");
            assert("main"@ =~= main_branch());
        }
        let lh = LocalHead { head: Head::Branch(String::from_str("main")) };
        assert(lh@ == HeadView::Branch(main_branch()));
        lh
    }

    /// The head.
    pub fn get(&self) -> (res: Result<Head, Error>)
        ensures
            res matches Ok(h) && h@ == self@,
    {
        Ok(self.head.duplicate())
    }

    /// The stored text of the head.
    pub fn text(&self) -> (res: Vec<u8>)
        ensures
            res@ == Head::text_of(self@),
    {
        self.head.to_json()
    }

    /// Puts the head on a branch.
    pub fn set_to_branch(&mut self, branch: &str) -> (res: Result<(), Error>)
        ensures
            res is Ok,
            final(self)@ == HeadView::Branch(branch@),
    {
        self.head = Head::Branch(String::from_str(branch));
        Ok(())
    }

    /// Puts the head on a commit, apart from any branch.
    pub fn set_to_oid(&mut self, oid: &Oid) -> (res: Result<(), Error>)
        ensures
            res is Ok,
            final(self)@ == HeadView::Oid(oid@),
    {
        self.head = Head::Oid(*oid);
        Ok(())
    }
}

/// A repository: the object database, the branches and the head.
pub struct Repository {
    pub db: Database,
    pub refs: Refs,
    pub local_head: LocalHead,
}

/// What a new repository holds: the commit it starts from, on the branch
/// `main`, whose tree is empty.
pub open spec fn initial_state(db: Map<Seq<u8>, Seq<u8>>, refs: Map<Seq<char>, Seq<u8>>, head: HeadView) -> bool {
    let tree_text = Tree::text_of(Seq::empty());
    let tree_id = sha256_digest(tree_text);
    let commit_text = Commit::text_of((None, tree_id, initial_message()));
    let commit_id = sha256_digest(commit_text);
    &&& db == Map::<Seq<u8>, Seq<u8>>::empty().insert(tree_id, tree_text).insert(commit_id, commit_text)
    &&& refs == Map::<Seq<char>, Seq<u8>>::empty().insert(main_branch(), commit_id)
    &&& head == HeadView::Branch(main_branch())
}

pub open spec fn initial_message() -> Seq<char> {
    seq!['i', 'n', 'i', 't']
}

impl Repository {
    pub open spec fn wf(&self) -> bool {
        self.db.wf() && self.refs.wf()
    }

    /// The name of the directory that holds a repository.
    pub fn name() -> (res: &'static str)
        ensures
            res@ == seq!['.', 'r', 'i', 't'],
    {
        proof {
            reveal_strlit(".rit");
        }
        let r = ".rit";
        assert(r@ =~= seq!['.', 'r', 'i', 't']);
        r
    }

    /// A new repository: an empty tree, the commit of it on `main`, and the
    /// head on `main`. An error only when the commit's id is the id of the tree.
    pub fn init() -> (res: Result<Repository, Error>)
        ensures
            res matches Ok(r) ==> r.wf() && initial_state(r.db.view(), r.refs.view(), r.local_head@),
            res is Err <==> ({
                let tree_id = sha256_digest(Tree::text_of(Seq::empty()));
                sha256_digest(Commit::text_of((None, tree_id, initial_message()))) == tree_id
            }),
    {
        let mut db = Database::init();
        let tree = Tree::new(Vec::new());
        assert(tree@ =~= Seq::empty());
        let tree_oid = db.store(&tree)?;
        proof {
            reveal_strlit("init");
            assert("init"@ =~= initial_message());
        }
        let commit = Commit::new(None, tree_oid, String::from_str("init"));
        assert(commit@ == (None::<Seq<u8>>, tree_oid@, initial_message()));
        assert(Tree::text_of(Seq::empty())[0] != Commit::text_of(commit@)[0]);
        let commit_oid = db.store(&commit)?;
        let mut refs = Refs::new();
        proof {
            reveal_strlit("main");
            assert("main"@ =~= main_branch());
        }
        let _ = refs.set("main", &commit_oid);
        let local_head = LocalHead::init();
        let r = Repository { db, refs, local_head };
        proof {
            assert(r.refs.view() =~= Map::<Seq<char>, Seq<u8>>::empty().insert(main_branch(), commit_oid@));
        }
        Ok(r)
    }
}

} // verus!
