//! Storing the files of a revision as a tree of stored directory listings.
use vstd::prelude::*;
use crate::database::{is_text_of, retrieved_as, Database, Object};
use crate::error::Error;
use crate::objects::{collides, entry_view, is_object_text, Entry, EntryView, Tree, DIRECTORY_MODE};
use crate::oid::{lemma_oid_len, sha256_digest, Oid};
use crate::revision::{entries_files, prefixed_by, tree_entries_of, tree_files, Files, PathView, Rev};
use crate::workspace::{copy_names, RelPath, Stat};

verus! {

broadcast use lemma_oid_len;

/// What a stored tree lists for the file `f` found at path `p`: it is named by
/// the last component of the path.
pub open spec fn listed(p: PathView, f: crate::workspace::FileView) -> crate::workspace::FileView {
    (p.last(), f.1, f.2, f.3)
}

/// The files of `m` that lie below `base`, by their path relative to `base`,
/// as a stored tree lists them.
pub open spec fn below(m: Files, base: PathView) -> Files {
    Map::new(
        |k: PathView| k.len() > 0 && m.contains_key(base + k),
        |k: PathView| listed(base + k, m[base + k]),
    )
}

/// Every file has a path, a stored content and the mode of a file.
pub open spec fn storable(m: Files) -> bool {
    forall|p: PathView|
        #[trigger] m.contains_key(p) ==> p.len() > 0 && m[p].1 is Some && m[p].3 != DIRECTORY_MODE
}

/// The files below `base` that lie in the subdirectories named by `ds`, each
/// under its directory's name.
pub open spec fn subdirs_union(m: Files, base: PathView, ds: Seq<Seq<char>>) -> Files
    decreases ds.len(),
{
    if ds.len() == 0 {
        Map::empty()
    } else {
        subdirs_union(m, base, ds.drop_last()).union_prefer_right(
            prefixed_by(seq![ds.last()], below(m, base.push(ds.last()))),
        )
    }
}

/// The views of a sequence of entries.
pub open spec fn entries_view(v: Seq<Entry>) -> Seq<EntryView> {
    v.map_values(|e: Entry| entry_view(e))
}

/// The views of a sequence of names.
pub open spec fn names_view(v: Seq<String>) -> Seq<Seq<char>> {
    v.map_values(|s: String| s@)
}

/// The file entries among the paths `ps` that lie directly in `base`.
pub open spec fn direct_files(m: Files, base: PathView, ps: Seq<PathView>) -> Files {
    Map::new(
        |k: PathView| k.len() == 1 && m.contains_key(base + k) && ps.contains(base + k),
        |k: PathView| listed(base + k, m[base + k]),
    )
}

proof fn lemma_prefixed_single_key(d: Seq<char>, s: Files, k: PathView)
    ensures
        prefixed_by(seq![d], s).contains_key(k) <==> (k.len() > 0 && k[0] == d && s.contains_key(k.skip(1))),
        prefixed_by(seq![d], s).contains_key(k) ==> prefixed_by(seq![d], s)[k] == s[k.skip(1)],
{
    if k.len() > 0 && k[0] == d {
        assert(k.take(1) =~= seq![d]);
    }
    if k.len() > 0 && k.take(1) == seq![d] {
        assert(k.take(1)[0] == k[0]);
    }
}

proof fn lemma_subdirs_union(m: Files, base: PathView, ds: Seq<Seq<char>>, k: PathView)
    ensures
        subdirs_union(m, base, ds).contains_key(k) <==> (k.len() > 0 && ds.contains(k[0]) && below(
            m,
            base.push(k[0]),
        ).contains_key(k.skip(1))),
        subdirs_union(m, base, ds).contains_key(k) ==> subdirs_union(m, base, ds)[k] == below(
            m,
            base.push(k[0]),
        )[k.skip(1)],
    decreases ds.len(),
{
    if ds.len() > 0 {
        let p = ds.drop_last();
        lemma_subdirs_union(m, base, p, k);
        lemma_prefixed_single_key(ds.last(), below(m, base.push(ds.last())), k);
        if k.len() > 0 && ds.contains(k[0]) {
            let u = choose|u: int| 0 <= u < ds.len() && ds[u] == k[0];
            if u < ds.len() - 1 {
                assert(p[u] == ds[u]);
            }
        }
        if k.len() > 0 && p.contains(k[0]) {
            let u = choose|u: int| 0 <= u < p.len() && p[u] == k[0];
            assert(ds[u] == p[u]);
        }
    }
}

/// Listing a tree needs only the objects it reaches: a database that holds
/// more lists it the same.
pub proof fn lemma_tree_files_extend(db: Map<Seq<u8>, Seq<u8>>, db2: Map<Seq<u8>, Seq<u8>>, id: Seq<u8>, f: nat)
    requires
        db.submap_of(db2),
        tree_files(db, id, f) is Some,
    ensures
        tree_files(db2, id, f) == tree_files(db, id, f),
    decreases f, 0nat,
{
    if f > 0 {
        assert(db2[id] == db[id]);
        lemma_entries_files_extend(db, db2, tree_entries_of(db[id]), (f - 1) as nat);
    }
}

pub proof fn lemma_entries_files_extend(db: Map<Seq<u8>, Seq<u8>>, db2: Map<Seq<u8>, Seq<u8>>, es: Seq<EntryView>, f: nat)
    requires
        db.submap_of(db2),
        entries_files(db, es, f) is Some,
    ensures
        entries_files(db2, es, f) == entries_files(db, es, f),
    decreases f, es.len(),
{
    if es.len() > 0 {
        lemma_entries_files_extend(db, db2, es.drop_last(), f);
        let e = es.last();
        if e.0 == DIRECTORY_MODE {
            lemma_tree_files_extend(db, db2, e.2, f);
        }
    }
}

proof fn lemma_take_contains(ps: Seq<PathView>, i: int, q: PathView)
    requires
        0 <= i < ps.len(),
    ensures
        ps.take(i + 1).contains(q) <==> (ps.take(i).contains(q) || ps[i] == q),
{
    if ps.take(i + 1).contains(q) {
        let j = choose|j: int| 0 <= j < i + 1 && #[trigger] ps.take(i + 1)[j] == q;
        if j < i {
            assert(ps.take(i)[j] == q);
        }
    }
    if ps.take(i).contains(q) {
        let j = choose|j: int| 0 <= j < i && #[trigger] ps.take(i)[j] == q;
        assert(ps.take(i + 1)[j] == q);
    }
    if ps[i] == q {
        assert(ps.take(i + 1)[i] == q);
    }
}

/// Whether `p` starts with `base`.
fn has_prefix(p: &RelPath, base: &RelPath) -> (res: bool)
    ensures
        res == (base@.len() <= p@.len() && p@.take(base@.len() as int) == base@),
{
    let n = base.0.len();
    if n > p.0.len() {
        return false;
    }
    let mut i: usize = 0;
    while i < n
        invariant
            i <= n <= p@.len(),
            n == base@.len(),
            forall|j: int| 0 <= j < i ==> p@[j] == base@[j],
        decreases n - i,
    {
        if p.0[i] != base.0[i] {
            assert(p@.take(n as int)[i as int] != base@[i as int]);
            return false;
        }
        i = i + 1;
    }
    assert(p@.take(n as int) =~= base@);
    true
}

/// Whether one of `ds` is `name`.
fn contains_name(ds: &Vec<String>, name: &String) -> (res: bool)
    ensures
        res == names_view(ds@).contains(name@),
{
    let n = ds.len();
    let mut i: usize = 0;
    while i < n
        invariant
            i <= n,
            n == ds@.len(),
            forall|j: int| 0 <= j < i ==> ds@[j]@ != name@,
        decreases n - i,
    {
        if ds[i] == *name {
            assert(names_view(ds@)[i as int] == name@);
            return true;
        }
        i = i + 1;
    }
    proof {
        if names_view(ds@).contains(name@) {
            let dv = names_view(ds@);
            let j = choose|j: int| 0 <= j < dv.len() && #[trigger] dv[j] == name@;
            assert(ds@[j]@ == name@);
        }
    }
    false
}

/// The path `base` followed by `name`.
fn child_path(base: &RelPath, name: &String) -> (res: RelPath)
    ensures
        res@ == base@.push(name@),
{
    let mut comps = copy_names(&base.0);
    comps.push(name.clone());
    let r = RelPath(comps);
    assert(r@ =~= base@.push(name@));
    r
}

/// Stores the files of `rev` below `base` as a tree, each directory a tree of
/// its own stored first, and returns the id of the tree. Listing that tree
/// again gives back exactly those files. An error only when a different object
/// is already stored under the id of one of the trees.
pub fn store_tree(db: &mut Database, rev: &Rev, base: &RelPath) -> (res: Result<Oid, Error>)
    requires
        old(db).wf(),
        rev.wf(),
        storable(rev.view()),
        base@.len() < usize::MAX,
    ensures
        final(db).wf(),
        old(db).view().submap_of(final(db).view()),
        res matches Ok(oid) ==> forall|f: nat|
            f + base@.len() >= usize::MAX ==> #[trigger] tree_files(final(db).view(), oid@, f) == Some(
                below(rev.view(), base@),
            ),
        res matches Err(e) ==> e is Repository,
        res is Err ==> collides(final(db).view()),
    decreases usize::MAX - base@.len(),
{
    let ghost m = rev.view();
    let ghost b = base@;
    let ghost ps = rev.0.pairs().map_values(|pr: (RelPath, crate::workspace::File)| pr.0@);
    proof {
        rev.0.lemma_pairs();
    }
    let k = base.0.len();
    let n = rev.0.len();
    let mut entries: Vec<Entry> = Vec::new();
    let mut dirs: Vec<String> = Vec::new();
    let mut i: usize = 0;
    while i < n
        invariant
            i <= n,
            n == rev.0.pairs().len(),
            k == b.len(),
            b == base@,
            m == rev.view(),
            rev.wf(),
            storable(m),
            ps == rev.0.pairs().map_values(|pr: (RelPath, crate::workspace::File)| pr.0@),
            forall|g: nat| #[trigger] entries_files(db.view(), entries_view(entries@), g)
                == Some(direct_files(m, b, ps.take(i as int))),
            forall|name: Seq<char>| #[trigger] names_view(dirs@).contains(name) <==> exists|j: int|
                0 <= j < i && ps[j].len() > k + 1 && ps[j].take(k as int) == b && #[trigger] ps[j][k as int]
                    == name,
        decreases n - i,
    {
        proof {
            rev.0.lemma_pairs();
        }
        let pair = rev.0.pair(i);
        let p = &pair.0;
        let f = &pair.1;
        let ghost ev0 = entries_view(entries@);
        let ghost dv0 = names_view(dirs@);
        assert(ps[i as int] == p@);
        if p.0.len() > k && has_prefix(p, base) {
            let name = &p.0[k];
            assert(p@[k as int] == name@);
            if p.0.len() == k + 1 {
                proof {
                    assert(m.contains_key(p@));
                    assert(m[p@] == f@);
                }
                let oid = match f.oid() {
                    Ok(o) => *o,
                    Err(_) => {
                        proof {
                            assert(m.contains_key(p@));
                            assert(false);
                        }
                        return Err(Error::Repository(String::from_str("a file to store has no content id")));
                    },
                };
                let e = Entry::new(f.mode(), f.mtime(), oid, name.clone());
                entries.push(e);
                proof {
                    let ev = entries_view(entries@);
                    assert(ev.drop_last() =~= ev0);
                    assert(ev.last() == entry_view(e));
                    let key = seq![name@];
                    assert(b + key =~= p@) by {
                        assert(p@ =~= p@.take(k as int).push(p@[k as int]));
                    }
                    assert forall|g: nat| #[trigger] entries_files(db.view(), ev, g) == Some(
                        direct_files(m, b, ps.take(i + 1)),
                    ) by {
                        let prev = direct_files(m, b, ps.take(i as int));
                        assert(entries_files(db.view(), ev0, g) == Some(prev));
                        assert(entries_files(db.view(), ev, g) == Some(prev.insert(key, (name@, Some(oid@), f@.2, f@.3))));
                        assert forall|q: PathView| #[trigger] ps.take(i + 1).contains(q) <==> (ps.take(i as int).contains(q) || q == p@) by {
                            lemma_take_contains(ps, i as int, q);
                        }
                        assert forall|kk: PathView| kk.len() == 1 && #[trigger] (b + kk) == p@ implies kk == key by {
                            assert(kk =~= (b + kk).skip(k as int));
                            assert(key =~= (b + key).skip(k as int));
                        }
                        assert(p@.last() == name@);
                        assert(f@.1 == Some(oid@));
                        assert(direct_files(m, b, ps.take(i + 1)) =~= prev.insert(key, (name@, Some(oid@), f@.2, f@.3)));
                    }
                }
            } else {
                if !contains_name(&dirs, name) {
                    dirs.push(name.clone());
                }
                proof {
                    let ev = entries_view(entries@);
                    assert(ev =~= ev0);
                    assert forall|q: PathView| #[trigger] ps.take(i + 1).contains(q) && q.len() == k + 1 <==> ps.take(i as int).contains(q) && q.len() == k + 1 by {
                        lemma_take_contains(ps, i as int, q);
                    }
                    assert forall|g: nat| #[trigger] entries_files(db.view(), ev, g) == Some(
                        direct_files(m, b, ps.take(i + 1)),
                    ) by {
                        assert(direct_files(m, b, ps.take(i + 1)) =~= direct_files(m, b, ps.take(i as int)));
                    }
                    let dv = names_view(dirs@);
                    assert(dv == dv0 || dv == dv0.push(name@));
                    assert forall|nm: Seq<char>| #[trigger] dv.contains(nm) <==> exists|j: int|
                        0 <= j < i + 1 && ps[j].len() > k + 1 && ps[j].take(k as int) == b && #[trigger] ps[j][k as int]
                            == nm by {
                        if dv.contains(nm) && !dv0.contains(nm) {
                            assert(nm == name@);
                            assert(ps[i as int][k as int] == nm);
                        }
                        if dv.contains(nm) && dv0.contains(nm) {
                        }
                        if dv0.contains(nm) {
                            let j = choose|j: int| 0 <= j < dv0.len() && #[trigger] dv0[j] == nm;
                            assert(dv[j] == nm);
                        }
                        if exists|j: int| 0 <= j < i + 1 && ps[j].len() > k + 1 && ps[j].take(k as int) == b && #[trigger] ps[j][k as int] == nm {
                            let j = choose|j: int| 0 <= j < i + 1 && ps[j].len() > k + 1 && ps[j].take(k as int) == b && #[trigger] ps[j][k as int] == nm;
                            if j == i {
                                assert(nm == name@);
                                if dv0.contains(nm) {
                                    let u = choose|u: int| 0 <= u < dv0.len() && #[trigger] dv0[u] == nm;
                                    assert(dv[u] == nm);
                                } else {
                                    assert(dv.last() == nm);
                                    assert(dv[dv.len() - 1] == nm);
                                }
                            }
                        }
                    }
                }
            }
        } else {
            proof {
                assert forall|q: PathView| #[trigger] ps.take(i + 1).contains(q) && q.len() == k + 1 && q.take(k as int) == b <==> ps.take(i as int).contains(q) && q.len() == k + 1 && q.take(k as int) == b by {
                    lemma_take_contains(ps, i as int, q);
                }
                assert forall|kk: PathView| kk.len() == 1 implies (#[trigger] (b + kk)).len() == k + 1 && (b + kk).take(k as int) == b by {
                    assert((b + kk).take(k as int) =~= b);
                }
                assert(direct_files(m, b, ps.take(i + 1)) =~= direct_files(m, b, ps.take(i as int)));
                let dv = names_view(dirs@);
                assert forall|nm: Seq<char>| #[trigger] dv.contains(nm) <==> exists|j: int|
                    0 <= j < i + 1 && ps[j].len() > k + 1 && ps[j].take(k as int) == b && #[trigger] ps[j][k as int]
                        == nm by {
                    if exists|j: int| 0 <= j < i + 1 && ps[j].len() > k + 1 && ps[j].take(k as int) == b && #[trigger] ps[j][k as int] == nm {
                        let j = choose|j: int| 0 <= j < i + 1 && ps[j].len() > k + 1 && ps[j].take(k as int) == b && #[trigger] ps[j][k as int] == nm;
                        assert(j != i);
                    }
                }
            }
        }
        i = i + 1;
    }
    proof {
        assert(ps.take(n as int) =~= ps);
        assert forall|q: PathView| #[trigger] ps.contains(q) <==> m.contains_key(q) by {
            if ps.contains(q) {
                let j = choose|j: int| 0 <= j < ps.len() && #[trigger] ps[j] == q;
                assert(rev.0.pairs()[j].0@ == q);
            }
            if m.contains_key(q) {
                let j = choose|j: int| 0 <= j < rev.0.pairs().len() && #[trigger] rev.0.pairs()[j].0@ == q;
                assert(ps[j] == q);
            }
        }
        assert forall|g: nat| g + k + 1 >= usize::MAX implies #[trigger] entries_files(db.view(), entries_view(entries@), g)
            == Some(direct_files(m, b, ps).union_prefer_right(subdirs_union(m, b, names_view(dirs@).take(0)))) by {
            assert(names_view(dirs@).take(0) =~= Seq::<Seq<char>>::empty());
            assert(direct_files(m, b, ps).union_prefer_right(Map::empty()) =~= direct_files(m, b, ps));
        }
    }
    let nd = dirs.len();
    let mut t: usize = 0;
    while t < nd
        invariant
            t <= nd,
            nd == dirs@.len(),
            k == b.len(),
            b == base@,
            k < usize::MAX,
            m == rev.view(),
            rev.wf(),
            storable(m),
            db.wf(),
            old(db).view().submap_of(db.view()),
            forall|q: PathView| #[trigger] ps.contains(q) <==> m.contains_key(q),
            ps == rev.0.pairs().map_values(|pr: (RelPath, crate::workspace::File)| pr.0@),
            forall|name: Seq<char>| #[trigger] names_view(dirs@).contains(name) <==> exists|j: int|
                0 <= j < n && ps[j].len() > k + 1 && ps[j].take(k as int) == b && #[trigger] ps[j][k as int]
                    == name,
            n == ps.len(),
            forall|g: nat| g + k + 1 >= usize::MAX ==> #[trigger] entries_files(db.view(), entries_view(entries@), g)
                == Some(direct_files(m, b, ps).union_prefer_right(subdirs_union(m, b, names_view(dirs@).take(t as int)))),
        decreases nd - t,
    {
        let name = &dirs[t];
        proof {
            assert(names_view(dirs@)[t as int] == name@);
            assert(names_view(dirs@).contains(name@));
            let j = choose|j: int| 0 <= j < n && ps[j].len() > k + 1 && ps[j].take(k as int) == b && #[trigger] ps[j][k as int] == name@;
            assert(rev.0.pairs()[j].0@ == ps[j]);
            assert(rev.0.pairs()[j].0.0.len() == rev.0.pairs()[j].0.0@.len());
        }
        let sub_base = child_path(base, name);
        let ghost db1 = db.view();
        let ghost ev1 = entries_view(entries@);
        let ghost acc = direct_files(m, b, ps).union_prefer_right(subdirs_union(m, b, names_view(dirs@).take(t as int)));
        let oid = match store_tree(db, rev, &sub_base) {
            Ok(o) => o,
            Err(e) => {
                proof {
                    vstd::map_lib::lemma_submap_of_trans(old(db).view(), db1, db.view());
                }
                return Err(e);
            },
        };
        proof {
            vstd::map_lib::lemma_submap_of_trans(old(db).view(), db1, db.view());
        }
        let e = Entry::new(DIRECTORY_MODE, 0, oid, name.clone());
        entries.push(e);
        proof {
            let ev = entries_view(entries@);
            assert(ev.drop_last() =~= ev1);
            assert(ev.last() == entry_view(e));
            let dv = names_view(dirs@);
            assert(dv.take(t + 1).drop_last() =~= dv.take(t as int));
            assert(dv.take(t + 1).last() == name@);
            assert forall|g: nat| g + k + 1 >= usize::MAX implies #[trigger] entries_files(db.view(), entries_view(entries@), g)
                == Some(direct_files(m, b, ps).union_prefer_right(subdirs_union(m, b, dv.take(t + 1)))) by {
                assert(entries_files(db1, ev1, g) == Some(acc));
                lemma_entries_files_extend(db1, db.view(), ev1, g);
                assert(g + sub_base@.len() >= usize::MAX);
                assert(tree_files(db.view(), oid@, g) == Some(below(m, b.push(name@))));
                assert(subdirs_union(m, b, dv.take(t + 1)) == subdirs_union(m, b, dv.take(t as int)).union_prefer_right(
                    prefixed_by(seq![name@], below(m, b.push(name@)))));
                assert(acc.union_prefer_right(prefixed_by(seq![name@], below(m, b.push(name@)))) =~= direct_files(m, b, ps).union_prefer_right(
                    subdirs_union(m, b, dv.take(t + 1))));
            }
        }
        t = t + 1;
    }
    let tree = Tree::new(entries);
    let ghost db2 = db.view();
    let ghost ev = entries_view(entries@);
    proof {
        assert(names_view(dirs@).take(nd as int) =~= names_view(dirs@));
        lemma_below_split(m, b, ps, names_view(dirs@), n as int);
    }
    let oid = match db.store(&tree) {
        Ok(o) => o,
        Err(e) => {
            proof {
                let text = Tree::text_of(tree@);
                assert(is_text_of::<Tree>(text));
                assert(is_object_text(text));
                assert(db.view().contains_key(sha256_digest(text)));
            }
            return Err(e);
        },
    };
    // Reading the tree back identifies it as the tree just stored.
    let _read_back: Result<Tree, Error> = db.retrieve(&oid);
    proof {
        let db3 = db.view();
        assert(db2.submap_of(db3));
        assert(retrieved_as::<Tree>(db3, oid@, ev));
        assert(retrieved_as::<Tree>(db3, oid@, tree_entries_of(db3[oid@])));
        assert(tree_entries_of(db3[oid@]) == ev);
        assert forall|f: nat| f + b.len() >= usize::MAX implies #[trigger] tree_files(db3, oid@, f) == Some(below(m, b)) by {
            let g = (f - 1) as nat;
            assert(entries_files(db2, ev, g) == Some(direct_files(m, b, ps).union_prefer_right(subdirs_union(m, b, names_view(dirs@)))));
            lemma_entries_files_extend(db2, db3, ev, g);
        }
    }
    Ok(oid)
}

/// The files below `base` are those directly in it and those in its
/// subdirectories, each subdirectory listing the files below it.
proof fn lemma_below_split(m: Files, b: PathView, ps: Seq<PathView>, ds: Seq<Seq<char>>, n: int)
    requires
        n == ps.len(),
        forall|q: PathView| #[trigger] ps.contains(q) <==> m.contains_key(q),
        forall|name: Seq<char>| #[trigger] ds.contains(name) <==> exists|j: int|
            0 <= j < n && ps[j].len() > b.len() + 1 && ps[j].take(b.len() as int) == b && #[trigger] ps[j][b.len() as int]
                == name,
    ensures
        direct_files(m, b, ps).union_prefer_right(subdirs_union(m, b, ds)) == below(m, b),
{
    let l = direct_files(m, b, ps).union_prefer_right(subdirs_union(m, b, ds));
    let r = below(m, b);
    assert forall|kk: PathView| #[trigger] l.contains_key(kk) <==> r.contains_key(kk) by {
        lemma_subdirs_union(m, b, ds, kk);
        if kk.len() > 0 {
            assert(b.push(kk[0]) + kk.skip(1) =~= b + kk);
        }
        if kk.len() > 1 && m.contains_key(b + kk) {
            let q = b + kk;
            assert(ps.contains(q));
            let j = choose|j: int| 0 <= j < ps.len() && #[trigger] ps[j] == q;
            assert(q.take(b.len() as int) =~= b);
            assert(q[b.len() as int] == kk[0]);
            assert(ds.contains(kk[0]));
        }
    }
    assert forall|kk: PathView| #[trigger] l.contains_key(kk) implies l[kk] == r[kk] by {
        lemma_subdirs_union(m, b, ds, kk);
        if kk.len() > 0 {
            assert(b.push(kk[0]) + kk.skip(1) =~= b + kk);
        }
    }
    assert(l =~= r);
}

} // verus!
