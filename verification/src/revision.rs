//! Revisions: the files of a commit or of the workspace, and how two differ.
use vstd::prelude::*;
use crate::database::{is_text_of, retrieved_as, Database};
use crate::error::{repository_error, Error};
use crate::objects::{commit_view_text, tree_text, valid_commit, valid_entries, Commit, CommitView, Entry, EntryView, Tree, DIRECTORY_MODE};
use crate::oid::{lemma_oid_len, Oid};
use crate::repository::Repository;
use crate::table::{Key, Table};
use crate::workspace::{File, FileView, RelPath, Stat};

verus! {

/// The files of a revision, by path.
pub struct Rev(pub Table<RelPath, File>);

/// A path and a file differ in what a revision compares: time or mode.
pub open spec fn changed(a: FileView, b: FileView) -> bool {
    a.2 != b.2 || a.3 != b.3
}

/// The paths of a list.
pub open spec fn path_set(v: Seq<RelPath>) -> Set<Seq<Seq<char>>> {
    v.map_values(|p: RelPath| p@).to_set()
}

/// The paths in `b` that are not in `a`.
pub open spec fn added_paths(a: Map<Seq<Seq<char>>, FileView>, b: Map<Seq<Seq<char>>, FileView>) -> Set<Seq<Seq<char>>> {
    b.dom().difference(a.dom())
}

/// The paths in both whose files differ.
pub open spec fn modified_paths(a: Map<Seq<Seq<char>>, FileView>, b: Map<Seq<Seq<char>>, FileView>) -> Set<Seq<Seq<char>>> {
    Set::new(|k: Seq<Seq<char>>| a.contains_key(k) && b.contains_key(k) && changed(a[k], b[k]))
}

/// How one revision differs from another.
pub struct RevDiff {
    pub added: Vec<RelPath>,
    pub modified: Vec<RelPath>,
    pub removed: Vec<RelPath>,
}

impl RevDiff {
    /// Whether nothing was added, modified or removed.
    pub fn is_clean(&self) -> (res: bool)
        ensures
            res == (self.added@.len() == 0 && self.modified@.len() == 0 && self.removed@.len() == 0),
    {
        self.added.len() == 0 && self.modified.len() == 0 && self.removed.len() == 0
    }
}

/// The diff `d` lists exactly the changes from `a` to `b`.
pub open spec fn is_diff(a: Map<Seq<Seq<char>>, FileView>, b: Map<Seq<Seq<char>>, FileView>, d: RevDiff) -> bool {
    &&& path_set(d.added@) == added_paths(a, b)
    &&& path_set(d.removed@) == added_paths(b, a)
    &&& path_set(d.modified@) == modified_paths(a, b)
}

impl Rev {
    pub open spec fn wf(&self) -> bool {
        self.0.wf()
    }

    pub open spec fn view(&self) -> Map<Seq<Seq<char>>, FileView> {
        self.0.view()
    }

    /// An empty revision.
    pub fn new() -> (res: Rev)
        ensures
            res.wf(),
            res.view() == Map::<Seq<Seq<char>>, FileView>::empty(),
    {
        Rev(Table::new())
    }

    /// How `other` differs from this revision: the paths only it has, the
    /// paths only this one has, and the paths whose files differ in time or mode.
    pub fn diff(&self, other: &Rev) -> (res: Result<RevDiff, Error>)
        requires
            self.wf(),
            other.wf(),
        ensures
            res matches Ok(d) && is_diff(self.view(), other.view(), d),
    {
        let mut added: Vec<RelPath> = Vec::new();
        let mut modified: Vec<RelPath> = Vec::new();
        let mut removed: Vec<RelPath> = Vec::new();
        proof {
            self.0.lemma_pairs();
            other.0.lemma_pairs();
        }
        let n = other.0.len();
        let mut i: usize = 0;
        while i < n
            invariant
                i <= n,
                n == other.0.pairs().len(),
                self.wf(),
                other.wf(),
                forall|k: Seq<Seq<char>>| #[trigger] path_set(added@).contains(k) <==> exists|j: int|
                    0 <= j < i && other.0.pairs()[j].0@ == k && !self.view().contains_key(k),
                forall|k: Seq<Seq<char>>| #[trigger] path_set(modified@).contains(k) <==> exists|j: int|
                    0 <= j < i && other.0.pairs()[j].0@ == k && self.view().contains_key(k) && changed(
                    self.view()[k],
                    other.view()[k],
                ),
            decreases n - i,
        {
            proof {
                other.0.lemma_pairs();
            }
            let (k, f) = other.0.pair(i);
            let ghost ka = added@;
            let ghost km = modified@;
            match self.0.get(k) {
                None => {
                    added.push(k.copy_key());
                },
                Some(g) => {
                    if g.mtime() != f.mtime() || g.mode() != f.mode() {
                        modified.push(k.copy_key());
                    }
                },
            }
            proof {
                lemma_path_set_push_or_same(ka, added@);
                lemma_path_set_push_or_same(km, modified@);
                assert forall|key: Seq<Seq<char>>| #[trigger] path_set(added@).contains(key) <==> exists|j: int|
                    0 <= j < i + 1 && other.0.pairs()[j].0@ == key && !self.view().contains_key(key) by {
                    if key == k@ && !self.view().contains_key(key) {
                        assert(other.0.pairs()[i as int].0@ == key);
                    }
                }
                assert forall|key: Seq<Seq<char>>| #[trigger] path_set(modified@).contains(key) <==> exists|j: int|
                    0 <= j < i + 1 && other.0.pairs()[j].0@ == key && self.view().contains_key(key) && changed(
                    self.view()[key],
                    other.view()[key],
                ) by {
                    if key == k@ && self.view().contains_key(key) && changed(self.view()[key], other.view()[key]) {
                        assert(other.0.pairs()[i as int].0@ == key);
                    }
                }
            }
            i = i + 1;
        }
        let m = self.0.len();
        let mut j: usize = 0;
        while j < m
            invariant
                j <= m,
                m == self.0.pairs().len(),
                self.wf(),
                other.wf(),
                forall|k: Seq<Seq<char>>| #[trigger] path_set(removed@).contains(k) <==> exists|l: int|
                    0 <= l < j && self.0.pairs()[l].0@ == k && !other.view().contains_key(k),
            decreases m - j,
        {
            let (k, _) = self.0.pair(j);
            let ghost kr = removed@;
            if !other.0.contains(k) {
                removed.push(k.copy_key());
            }
            proof {
                lemma_path_set_push_or_same(kr, removed@);
                assert forall|key: Seq<Seq<char>>| #[trigger] path_set(removed@).contains(key) <==> exists|l: int|
                    0 <= l < j + 1 && self.0.pairs()[l].0@ == key && !other.view().contains_key(key) by {
                    if key == k@ && !other.view().contains_key(key) {
                        assert(self.0.pairs()[j as int].0@ == key);
                    }
                }
            }
            j = j + 1;
        }
        let d = RevDiff { added, modified, removed };
        proof {
            self.0.lemma_pairs();
            other.0.lemma_pairs();
            assert(path_set(d.added@) =~= added_paths(self.view(), other.view()));
            assert(path_set(d.removed@) =~= added_paths(other.view(), self.view()));
            assert(path_set(d.modified@) =~= modified_paths(self.view(), other.view()));
        }
        Ok(d)
    }
}

proof fn lemma_path_set_push_or_same(a: Seq<RelPath>, b: Seq<RelPath>)
    requires
        b == a || (b.len() == a.len() + 1 && forall|i: int| 0 <= i < a.len() ==> b[i] == a[i]),
    ensures
        b == a ==> path_set(b) == path_set(a),
        b != a ==> path_set(b) == path_set(a).insert(b.last()@),
{
    if b != a {
        assert(b.drop_last() =~= a);
        let ma = a.map_values(|p: RelPath| p@);
        let mb = b.map_values(|p: RelPath| p@);
        assert(mb =~= ma.push(b.last()@));
        ma.lemma_push_to_set_commute(b.last()@);
    }
}

/// A revision compared with itself shows no change.
pub proof fn lemma_diff_self_clean(a: Map<Seq<Seq<char>>, FileView>, d: RevDiff)
    requires
        is_diff(a, a, d),
    ensures
        path_set(d.added@).is_empty(),
        path_set(d.removed@).is_empty(),
        path_set(d.modified@).is_empty(),
{
    assert(added_paths(a, a) =~= Set::empty());
    assert(modified_paths(a, a) =~= Set::empty());
}

/// Swapping the two revisions swaps what was added and what was removed, and
/// keeps what was modified.
pub proof fn lemma_diff_swap(a: Map<Seq<Seq<char>>, FileView>, b: Map<Seq<Seq<char>>, FileView>, d: RevDiff, e: RevDiff)
    requires
        is_diff(a, b, d),
        is_diff(b, a, e),
    ensures
        path_set(d.added@) == path_set(e.removed@),
        path_set(d.removed@) == path_set(e.added@),
        path_set(d.modified@) == path_set(e.modified@),
{
    assert(modified_paths(a, b) =~= modified_paths(b, a));
}


broadcast use lemma_oid_len;

pub type PathView = Seq<Seq<char>>;

pub type Files = Map<PathView, FileView>;

/// The files of `m`, each under `base` followed by its path.
pub open spec fn prefixed_by(base: PathView, m: Files) -> Files {
    Map::new(
        |k: PathView| k.len() >= base.len() && k.take(base.len() as int) == base && m.contains_key(k.skip(base.len() as int)),
        |k: PathView| m[k.skip(base.len() as int)],
    )
}

/// The entries of the tree whose stored text is `t`.
pub open spec fn tree_entries_of(t: Seq<u8>) -> Seq<EntryView> {
    choose|v: Seq<EntryView>| valid_entries(v) && tree_text(v) == t
}

/// The file a tree entry that is not a directory stands for.
pub open spec fn entry_file(e: EntryView) -> FileView {
    (e.3, Some(e.2), e.1, e.0)
}

/// The files listed by the tree stored under `id`, through at most `fuel`
/// levels of trees; `None` when a tree is missing, cannot be read, or lies
/// deeper.
pub open spec fn tree_files(db: Map<Seq<u8>, Seq<u8>>, id: Seq<u8>, fuel: nat) -> Option<Files>
    decreases fuel, 0nat,
{
    if fuel == 0 {
        None
    } else if !db.contains_key(id) || !is_text_of::<Tree>(db[id]) {
        None
    } else {
        entries_files(db, tree_entries_of(db[id]), (fuel - 1) as nat)
    }
}

/// The files listed by a sequence of tree entries, a later entry winning over
/// an earlier one for the same path: a directory entry lists the files of its
/// tree under its name, any other entry is a file of its own name.
pub open spec fn entries_files(db: Map<Seq<u8>, Seq<u8>>, es: Seq<EntryView>, fuel: nat) -> Option<Files>
    decreases fuel, es.len(),
{
    if es.len() == 0 {
        Some(Map::empty())
    } else {
        match entries_files(db, es.drop_last(), fuel) {
            None => None,
            Some(m) => {
                let e = es.last();
                if e.0 == DIRECTORY_MODE {
                    match tree_files(db, e.2, fuel) {
                        None => None,
                        Some(sub) => Some(m.union_prefer_right(prefixed_by(seq![e.3], sub))),
                    }
                } else {
                    Some(m.insert(seq![e.3], entry_file(e)))
                }
            }
        }
    }
}

proof fn lemma_prefixed_union(base: PathView, a: Files, b: Files)
    ensures
        prefixed_by(base, a.union_prefer_right(b)) == prefixed_by(base, a).union_prefer_right(prefixed_by(base, b)),
{
    assert(prefixed_by(base, a.union_prefer_right(b)) =~= prefixed_by(base, a).union_prefer_right(prefixed_by(base, b)));
}

proof fn lemma_prefixed_nested(base: PathView, name: Seq<char>, sub: Files)
    ensures
        prefixed_by(base, prefixed_by(seq![name], sub)) == prefixed_by(base.push(name), sub),
{
    let inner = prefixed_by(seq![name], sub);
    let l = prefixed_by(base, inner);
    let r = prefixed_by(base.push(name), sub);
    assert forall|k: PathView| #[trigger] l.contains_key(k) <==> r.contains_key(k) by {
        if k.len() >= base.len() + 1 {
            let rest = k.skip(base.len() as int);
            assert(rest.take(1) =~= seq![k[base.len() as int]]);
            assert(rest.skip(1) =~= k.skip((base.len() + 1) as int));
            if k.take(base.len() as int) == base && rest.take(1) == seq![name] {
                assert(rest.take(1)[0] == name);
                assert(rest[0] == k[base.len() as int]);
                assert(k.take((base.len() + 1) as int) =~= base.push(name));
            }
            if k.take((base.len() + 1) as int) == base.push(name) {
                assert(k.take(base.len() as int) =~= base);
                assert(k[base.len() as int] == base.push(name)[base.len() as int]);
                assert(rest.take(1) =~= seq![name]);
            }
        }
    }
    assert forall|k: PathView| #[trigger] l.contains_key(k) implies l[k] == r[k] by {
        let rest = k.skip(base.len() as int);
        assert(rest.skip(1) =~= k.skip((base.len() + 1) as int));
    }
    assert(l =~= r);
}

proof fn lemma_prefixed_single(base: PathView, name: Seq<char>, f: FileView)
    ensures
        prefixed_by(base, Map::<PathView, FileView>::empty().insert(seq![name], f)) == Map::<PathView, FileView>::empty().insert(base.push(name), f),
{
    let l = prefixed_by(base, Map::<PathView, FileView>::empty().insert(seq![name], f));
    let r = Map::<PathView, FileView>::empty().insert(base.push(name), f);
    assert forall|k: PathView| #[trigger] l.contains_key(k) <==> r.contains_key(k) by {
        if k == base.push(name) {
            assert(k.take(base.len() as int) =~= base);
            assert(k.skip(base.len() as int) =~= seq![name]);
        }
        if l.contains_key(k) {
            assert(k.skip(base.len() as int) == seq![name]);
            assert(k =~= k.take(base.len() as int) + k.skip(base.len() as int));
            assert(base + seq![name] =~= base.push(name));
        }
    }
    assert(l =~= r);
}

/// A prefix of the entries that cannot be listed keeps the whole sequence
/// from being listed.
proof fn lemma_entries_none_prefix(db: Map<Seq<u8>, Seq<u8>>, es: Seq<EntryView>, j: int, fuel: nat)
    requires
        0 <= j <= es.len(),
        entries_files(db, es.take(j), fuel) is None,
    ensures
        entries_files(db, es, fuel) is None,
    decreases es.len() - j,
{
    if j < es.len() {
        assert(es.take(j + 1).drop_last() =~= es.take(j));
        lemma_entries_none_prefix(db, es, j + 1, fuel);
    } else {
        assert(es.take(j) =~= es);
    }
}

proof fn lemma_union_assoc(r: Files, a: Files, b: Files)
    ensures
        r.union_prefer_right(a).union_prefer_right(b) == r.union_prefer_right(a.union_prefer_right(b)),
{
    assert(r.union_prefer_right(a).union_prefer_right(b) =~= r.union_prefer_right(a.union_prefer_right(b)));
}

/// The files of the entries `es` of a tree, listed under `base` into `result`
/// as `Revision` does it.
fn list_entries(db: &Database, base: &RelPath, es: &Vec<Entry>, result: &mut Rev, fuel: usize) -> (res: Result<(), Error>)
    requires
        db.wf(),
        old(result).wf(),
    ensures
        final(result).wf(),
        res matches Err(e) ==> e is Repository,
        res is Ok <==> entries_files(db.view(), es@.map_values(|e: Entry| crate::objects::entry_view(e)), fuel as nat) is Some,
        res is Ok ==> final(result).view() == old(result).view().union_prefer_right(prefixed_by(
            base@,
            entries_files(db.view(), es@.map_values(|e: Entry| crate::objects::entry_view(e)), fuel as nat).unwrap(),
        )),
    decreases fuel,
{
    let ghost ev = es@.map_values(|e: Entry| crate::objects::entry_view(e));
    let n = es.len();
    let mut i: usize = 0;
    proof {
        assert(ev.take(0) =~= Seq::<EntryView>::empty());
        assert(prefixed_by(base@, Map::empty()) =~= Map::<PathView, FileView>::empty());
        assert(old(result).view().union_prefer_right(Map::empty()) =~= old(result).view());
    }
    while i < n
        invariant
            i <= n,
            n == es@.len(),
            ev == es@.map_values(|e: Entry| crate::objects::entry_view(e)),
            db.wf(),
            result.wf(),
            entries_files(db.view(), ev.take(i as int), fuel as nat) is Some,
            result.view() == old(result).view().union_prefer_right(prefixed_by(
                base@,
                entries_files(db.view(), ev.take(i as int), fuel as nat).unwrap(),
            )),
        decreases n - i,
    {
        let e = &es[i];
        let ghost prev = entries_files(db.view(), ev.take(i as int), fuel as nat).unwrap();
        let ghost ei = ev[i as int];
        proof {
            assert(ev.take(i + 1).drop_last() =~= ev.take(i as int));
            assert(ev.take(i + 1).last() == ei);
        }
        let mut comps = crate::workspace::copy_names(&base.0);
        comps.push(e.3.clone());
        let new_base = RelPath(comps);
        assert(new_base@ =~= base@.push(e.3@));
        if e.is_dir() {
            if fuel == 0 {
                proof {
                    lemma_entries_none_prefix(db.view(), ev, i + 1, fuel as nat);
                }
                return Err(Error::Repository(String::from_str("trees nested too deep")));
            }
            let sub: Tree = match db.retrieve(&e.2) {
                Ok(t) => t,
                Err(err) => {
                    proof {
                        lemma_entries_none_prefix(db.view(), ev, i + 1, fuel as nat);
                    }
                    return Err(err);
                },
            };
            proof {
                let t = db.view()[e.2@];
                let c = tree_entries_of(t);
                assert(retrieved_as::<Tree>(db.view(), e.2@, c));
                assert(sub@ == c);
            }
            let ghost mid = result.view();
            proof {
                assert(sub.0@.map_values(|e: Entry| crate::objects::entry_view(e)) == sub@);
            }
            match list_entries(db, &new_base, &sub.0, result, fuel - 1) {
                Ok(()) => {},
                Err(err) => {
                    proof {
                        lemma_entries_none_prefix(db.view(), ev, i + 1, fuel as nat);
                    }
                    return Err(err);
                },
            }
            proof {
                let subm = tree_files(db.view(), ei.2, fuel as nat).unwrap();
                lemma_prefixed_nested(base@, ei.3, subm);
                lemma_prefixed_union(base@, prev, prefixed_by(seq![ei.3], subm));
                lemma_union_assoc(old(result).view(), prefixed_by(base@, prev), prefixed_by(base@, prefixed_by(seq![ei.3], subm)));
            }
        } else {
            let f = File::from_entry(e);
            result.0.insert(new_base, f);
            proof {
                lemma_prefixed_single(base@, ei.3, entry_file(ei));
                let single = Map::<PathView, FileView>::empty().insert(seq![ei.3], entry_file(ei));
                assert(prev.insert(seq![ei.3], entry_file(ei)) =~= prev.union_prefer_right(single));
                lemma_prefixed_union(base@, prev, single);
                lemma_union_assoc(old(result).view(), prefixed_by(base@, prev), prefixed_by(base@, single));
                assert(result.view() =~= old(result).view().union_prefer_right(prefixed_by(base@, prev)).union_prefer_right(
                    Map::<PathView, FileView>::empty().insert(base@.push(ei.3), entry_file(ei))));
            }
        }
        i = i + 1;
    }
    proof {
        assert(ev.take(n as int) =~= ev);
    }
    Ok(())
}


/// Every listed file has a path, the last component of which names it, a
/// stored content, and the mode of a file.
pub open spec fn well_listed(m: Files) -> bool {
    forall|p: PathView|
        #[trigger] m.contains_key(p) ==> p.len() > 0 && m[p].0 == p.last() && m[p].1 is Some && m[p].3
            != DIRECTORY_MODE
}

/// What a stored tree lists is well listed.
pub proof fn lemma_tree_files_listed(db: Map<Seq<u8>, Seq<u8>>, id: Seq<u8>, f: nat)
    requires
        tree_files(db, id, f) is Some,
    ensures
        well_listed(tree_files(db, id, f).unwrap()),
    decreases f, 0nat,
{
    if f > 0 {
        lemma_entries_files_listed(db, tree_entries_of(db[id]), (f - 1) as nat);
    }
}

proof fn lemma_entries_files_listed(db: Map<Seq<u8>, Seq<u8>>, es: Seq<EntryView>, f: nat)
    requires
        entries_files(db, es, f) is Some,
    ensures
        well_listed(entries_files(db, es, f).unwrap()),
    decreases f, es.len(),
{
    if es.len() > 0 {
        lemma_entries_files_listed(db, es.drop_last(), f);
        let m = entries_files(db, es.drop_last(), f).unwrap();
        let e = es.last();
        if e.0 == DIRECTORY_MODE {
            lemma_tree_files_listed(db, e.2, f);
            let sub = tree_files(db, e.2, f).unwrap();
            let pre = prefixed_by(seq![e.3], sub);
            assert forall|p: PathView| #[trigger] pre.contains_key(p) implies p.len() > 0 && pre[p].0 == p.last()
                && pre[p].1 is Some && pre[p].3 != DIRECTORY_MODE by {
                assert(sub.contains_key(p.skip(1)));
                assert(p.skip(1).last() == p.last());
            }
        }
    }
}

/// The commit whose stored text is `t`.
pub open spec fn commit_of(t: Seq<u8>) -> CommitView {
    choose|c: CommitView| valid_commit(c) && commit_view_text(c) == t
}

/// The files of the commit stored under `id`: `None` when no commit is
/// stored there or its tree cannot be listed.
pub open spec fn commit_files(db: Map<Seq<u8>, Seq<u8>>, id: Seq<u8>) -> Option<Files> {
    if db.contains_key(id) && is_text_of::<Commit>(db[id]) {
        tree_files(db, commit_of(db[id]).1, usize::MAX as nat)
    } else {
        None
    }
}

proof fn lemma_prefixed_empty(m: Files)
    ensures
        prefixed_by(Seq::empty(), m) == m,
{
    assert forall|k: PathView| #[trigger] prefixed_by(Seq::empty(), m).contains_key(k) <==> m.contains_key(k) by {
        assert(k.skip(0) =~= k);
        assert(k.take(0) =~= Seq::<Seq<char>>::empty());
    }
    assert forall|k: PathView| #[trigger] prefixed_by(Seq::empty(), m).contains_key(k) implies prefixed_by(Seq::empty(), m)[k] == m[k] by {
        assert(k.skip(0) =~= k);
    }
    assert(prefixed_by(Seq::empty(), m) =~= m);
}

/// A commit of the repository, read to list its files.
pub struct Revision<'a> {
    repo: &'a Repository,
    commit: Commit,
}

impl<'a> Revision<'a> {
    pub closed spec fn db_view(&self) -> Map<Seq<u8>, Seq<u8>> {
        self.repo.db.view()
    }

    pub closed spec fn commit_view(&self) -> CommitView {
        self.commit@
    }

    pub closed spec fn wf(&self) -> bool {
        self.repo.wf()
    }

    /// The commit stored under `oid`; an error when none is stored there.
    pub fn build(repo: &'a Repository, oid: &Oid) -> (res: Result<Revision<'a>, Error>)
        requires
            repo.wf(),
        ensures
            res matches Ok(r) ==> r.wf() && r.db_view() == repo.db.view() && r.commit_view() == commit_of(
                repo.db.view()[oid@],
            ),
            res is Err <==> !repo.db.view().contains_key(oid@) || !is_text_of::<Commit>(repo.db.view()[oid@]),
            res matches Err(e) ==> repository_error(e, if repo.db.view().contains_key(oid@) {
                "stored object cannot be read"@
            } else {
                "such object not found"@
            }),
    {
        let commit: Commit = repo.db.retrieve(oid)?;
        proof {
            let t = repo.db.view()[oid@];
            assert(retrieved_as::<Commit>(repo.db.view(), oid@, commit@));
            assert(retrieved_as::<Commit>(repo.db.view(), oid@, commit_of(t)));
        }
        Ok(Revision { repo, commit })
    }

    /// The files of the commit, by path; an error when one of its trees is
    /// missing or cannot be read.
    pub fn into_rev(&self) -> (res: Result<Rev, Error>)
        requires
            self.wf(),
        ensures
            res is Ok <==> tree_files(self.db_view(), self.commit_view().1, usize::MAX as nat) is Some,
            res matches Ok(rev) ==> rev.wf() && rev.view() == tree_files(
                self.db_view(),
                self.commit_view().1,
                usize::MAX as nat,
            ).unwrap(),
            res matches Err(e) ==> e is Repository,
    {
        let db = &self.repo.db;
        let root = self.commit.root();
        let root_tree: Tree = db.retrieve(root)?;
        proof {
            let t = db.view()[root@];
            assert(retrieved_as::<Tree>(db.view(), root@, tree_entries_of(t)));
            assert(root_tree.0@.map_values(|e: Entry| crate::objects::entry_view(e)) == root_tree@);
        }
        let mut rev = Rev::new();
        let base = RelPath(Vec::new());
        assert(base@ =~= Seq::<Seq<char>>::empty());
        match list_entries(db, &base, &root_tree.0, &mut rev, usize::MAX - 1) {
            Ok(()) => {},
            Err(e) => return Err(e),
        }
        proof {
            let m = entries_files(db.view(), root_tree@, (usize::MAX - 1) as nat).unwrap();
            lemma_prefixed_empty(m);
            assert(rev.view() =~= m);
        }
        Ok(rev)
    }
}

} // verus!
