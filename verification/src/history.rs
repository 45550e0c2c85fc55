//! The parents and children of the commits met walking the branches of a
//! history, to draw it.
use vstd::prelude::*;
use crate::oid::{lemma_oid_len, Oid};
use crate::table::{Key, Table};

verus! {

broadcast use lemma_oid_len;

/// The ids of a list of commits, as a set.
pub open spec fn id_set(v: Seq<Oid>) -> Set<Seq<u8>> {
    v.map_values(|o: Oid| o@).to_set()
}

/// The parents and the children of one commit, each id once.
pub struct Links {
    pub parents: Vec<Oid>,
    pub children: Vec<Oid>,
}

impl View for Links {
    type V = (Set<Seq<u8>>, Set<Seq<u8>>);

    open spec fn view(&self) -> (Set<Seq<u8>>, Set<Seq<u8>>) {
        (id_set(self.parents@), id_set(self.children@))
    }
}

/// Adds `o` to `v` unless it is there already.
fn add_id(v: &mut Vec<Oid>, o: Oid)
    ensures
        id_set(final(v)@) == id_set(old(v)@).insert(o@),
{
    let n = v.len();
    let mut i: usize = 0;
    while i < n
        invariant
            i <= n,
            n == v@.len(),
            forall|j: int| 0 <= j < i ==> v@[j]@ != o@,
        decreases n - i,
    {
        if v[i].same(&o) {
            proof {
                assert(v@.map_values(|x: Oid| x@)[i as int] == o@);
                assert(id_set(v@).insert(o@) =~= id_set(v@));
            }
            return;
        }
        i = i + 1;
    }
    let ghost before = v@;
    v.push(o);
    proof {
        let mb = before.map_values(|x: Oid| x@);
        assert(v@.map_values(|x: Oid| x@) =~= mb.push(o@));
        mb.lemma_push_to_set_commute(o@);
    }
}

/// A copy of a list of ids.
fn copy_ids(v: &Vec<Oid>) -> (res: Vec<Oid>)
    ensures
        res@ == v@,
{
    let mut r: Vec<Oid> = Vec::new();
    let n = v.len();
    let mut i: usize = 0;
    while i < n
        invariant
            i <= n,
            n == v@.len(),
            r@ == v@.take(i as int),
        decreases n - i,
    {
        r.push(v[i]);
        assert(v@.take(i + 1) =~= v@.take(i as int).push(v@[i as int]));
        i = i + 1;
    }
    assert(v@.take(n as int) =~= v@);
    r
}

/// The links of each commit, by id.
pub type History = Map<Seq<u8>, (Set<Seq<u8>>, Set<Seq<u8>>)>;

/// `m` with `parent` recorded as a parent of `child`, and `child` as a child
/// of `parent`; each is added with no links first when it has none yet.
pub open spec fn link(m: History, child: Seq<u8>, parent: Seq<u8>) -> History {
    let m1 = if m.contains_key(parent) {
        m
    } else {
        m.insert(parent, (Set::empty(), Set::empty()))
    };
    let m2 = m1.insert(parent, (m1[parent].0, m1[parent].1.insert(child)));
    let m3 = if m2.contains_key(child) {
        m2
    } else {
        m2.insert(child, (Set::empty(), Set::empty()))
    };
    m3.insert(child, (m3[child].0.insert(parent), m3[child].1))
}

/// The links recorded walking `nodes`, each a commit with its parent, in
/// order, until a commit that `m` holds already.
pub open spec fn walk(m: History, nodes: Seq<(Seq<u8>, Option<Seq<u8>>)>) -> History
    decreases nodes.len(),
{
    if nodes.len() == 0 || m.contains_key(nodes[0].0) {
        m
    } else {
        let next = match nodes[0].1 {
            Some(p) => link(m, nodes[0].0, p),
            None => m,
        };
        walk(next, nodes.skip(1))
    }
}

/// The links recorded for `branches`, each the id of a branch's tip with the
/// commits met walking from it: a tip held already is passed over; otherwise
/// it is added with no links, and its walk is recorded.
pub open spec fn history_of(branches: Seq<(Seq<u8>, Seq<(Seq<u8>, Option<Seq<u8>>)>)>) -> History
    decreases branches.len(),
{
    if branches.len() == 0 {
        Map::empty()
    } else {
        let m = history_of(branches.drop_last());
        let (tip, nodes) = branches.last();
        if m.contains_key(tip) {
            m
        } else {
            walk(m.insert(tip, (Set::empty(), Set::empty())), nodes)
        }
    }
}

/// The views of the walks of the branches.
pub open spec fn walks_view(v: Seq<(Oid, Vec<(Oid, Option<Oid>)>)>) -> Seq<(Seq<u8>, Seq<(Seq<u8>, Option<Seq<u8>>)>)> {
    v.map_values(|b: (Oid, Vec<(Oid, Option<Oid>)>)| (b.0@, nodes_view(b.1@)))
}

/// The views of the commits met on a walk, each with its parent.
pub open spec fn nodes_view(v: Seq<(Oid, Option<Oid>)>) -> Seq<(Seq<u8>, Option<Seq<u8>>)> {
    v.map_values(|x: (Oid, Option<Oid>)| (x.0@, match x.1 {
        Some(p) => Some(p@),
        None => None,
    }))
}

/// The links of `o`, or none.
fn links_of(history: &Table<Oid, Links>, o: &Oid) -> (res: Links)
    requires
        history.wf(),
    ensures
        history.view().contains_key(o@) ==> res@ == history.view()[o@],
        !history.view().contains_key(o@) ==> res@ == (Set::<Seq<u8>>::empty(), Set::<Seq<u8>>::empty()),
{
    match history.get(o) {
        Some(l) => Links { parents: copy_ids(&l.parents), children: copy_ids(&l.children) },
        None => {
            let l = Links { parents: Vec::new(), children: Vec::new() };
            assert(id_set(l.parents@) =~= Set::empty());
            assert(id_set(l.children@) =~= Set::empty());
            l
        },
    }
}

/// Records `parent` as a parent of `child`, and `child` as a child of `parent`.
fn add_link(history: &mut Table<Oid, Links>, child: &Oid, parent: &Oid)
    requires
        old(history).wf(),
    ensures
        final(history).wf(),
        final(history).view() == link(old(history).view(), child@, parent@),
{
    let ghost m = history.view();
    let mut up = links_of(history, parent);
    add_id(&mut up.children, *child);
    history.insert(*parent, up);
    let mut down = links_of(history, child);
    add_id(&mut down.parents, *parent);
    history.insert(*child, down);
    proof {
        let m1 = if m.contains_key(parent@) {
            m
        } else {
            m.insert(parent@, (Set::empty(), Set::empty()))
        };
        let m2 = m1.insert(parent@, (m1[parent@].0, m1[parent@].1.insert(child@)));
        assert(m2 =~= m.insert(parent@, up@));
        assert(history.view() =~= link(m, child@, parent@));
    }
}

/// The parents and children of the commits met walking the branches: for
/// each branch, the id of its tip and the commits met walking from it, each
/// with its parent. A tip recorded already is passed over; otherwise it is
/// recorded with no links, and the walk stops at the first commit recorded
/// already.
pub fn read_entire_history(branches: &Vec<(Oid, Vec<(Oid, Option<Oid>)>)>) -> (res: Table<Oid, Links>)
    ensures
        res.wf(),
        res.view() == history_of(walks_view(branches@)),
        forall|i: int| 0 <= i < branches@.len() ==> res.view().contains_key(#[trigger] branches@[i].0@),
        forall|i: int|
            0 <= i < branches@.len() && !history_of(walks_view(branches@).take(i)).contains_key(branches@[i].0@)
                && (#[trigger] branches@[i]).1@.len() > 0 && branches@[i].1@[0].0@ != branches@[i].0@
                && !history_of(walks_view(branches@).take(i)).contains_key(branches@[i].1@[0].0@)
                && branches@[i].1@[0].1 is Some ==> ({
                let c = branches@[i].1@[0].0@;
                let p = branches@[i].1@[0].1.unwrap()@;
                res.view().contains_key(c) && res.view().contains_key(p) && res.view()[c].0.contains(p)
                    && res.view()[p].1.contains(c)
            }),
{
    let ghost bv = walks_view(branches@);
    let mut history: Table<Oid, Links> = Table::new();
    let n = branches.len();
    let mut i: usize = 0;
    assert(bv.take(0) =~= Seq::<(Seq<u8>, Seq<(Seq<u8>, Option<Seq<u8>>)>)>::empty());
    while i < n
        invariant
            i <= n,
            n == bv.len(),
            bv == walks_view(branches@),
            history.wf(),
            history.view() == history_of(bv.take(i as int)),
        decreases n - i,
    {
        let (tip, nodes) = &branches[i];
        proof {
            assert(bv.take(i + 1).drop_last() =~= bv.take(i as int));
            assert(bv.take(i + 1).last() == (tip@, nodes_view(nodes@)));
        }
        if !history.contains(tip) {
            let empty = Links { parents: Vec::new(), children: Vec::new() };
            assert(id_set(empty.parents@) =~= Set::empty());
            assert(id_set(empty.children@) =~= Set::empty());
            history.insert(*tip, empty);
            let ghost nv = nodes_view(nodes@);
            let k = nodes.len();
            let mut j: usize = 0;
            assert(nv.skip(0) =~= nv);
            while j < k
                invariant
                    j <= k,
                    k == nv.len(),
                    nv == nodes_view(nodes@),
                    i < n,
                    n == bv.len(),
                    bv == walks_view(branches@),
                    history.wf(),
                    walk(history.view(), nv.skip(j as int)) == history_of(bv.take(i + 1)),
                ensures
                    history.wf(),
                    history.view() == history_of(bv.take(i + 1)),
                decreases k - j,
            {
                let (child, parent) = &nodes[j];
                let ghost rest = nv.skip(j as int);
                assert(rest[0] == (child@, match parent {
                    Some(p) => Some(p@),
                    None => None::<Seq<u8>>,
                }));
                assert(rest.skip(1) =~= nv.skip(j + 1));
                if history.contains(child) {
                    break;
                }
                match parent {
                    Some(p) => add_link(&mut history, child, p),
                    None => {},
                }
                j = j + 1;
            }
            proof {
                if j == k {
                    assert(nv.skip(k as int) =~= Seq::<(Seq<u8>, Option<Seq<u8>>)>::empty());
                }
            }
        }
        i = i + 1;
    }
    assert(bv.take(n as int) =~= bv);
    proof {
        lemma_history_links(bv);
        assert forall|i: int| 0 <= i < branches@.len() implies history.view().contains_key(#[trigger] branches@[i].0@) by {
            assert(bv[i].0 == branches@[i].0@);
        }
        assert forall|i: int|
            0 <= i < branches@.len() && !history_of(bv.take(i)).contains_key(branches@[i].0@)
                && (#[trigger] branches@[i]).1@.len() > 0 && branches@[i].1@[0].0@ != branches@[i].0@
                && !history_of(bv.take(i)).contains_key(branches@[i].1@[0].0@)
                && branches@[i].1@[0].1 is Some implies ({
                let c = branches@[i].1@[0].0@;
                let p = branches@[i].1@[0].1.unwrap()@;
                history.view().contains_key(c) && history.view().contains_key(p) && history.view()[c].0.contains(p)
                    && history.view()[p].1.contains(c)
            }) by {
            assert(bv[i].0 == branches@[i].0@);
            assert(bv[i].1 == nodes_view(branches@[i].1@));
            assert(bv[i].1[0] == (branches@[i].1@[0].0@, match branches@[i].1@[0].1 {
                Some(p) => Some(p@),
                None => None::<Seq<u8>>,
            }));
        }
    }
    history
}

/// Every commit `m` records is recorded in `r`, with at least the parents
/// and children `m` gives it.
pub open spec fn grows(m: History, r: History) -> bool {
    forall|k: Seq<u8>|
        #[trigger] m.contains_key(k) ==> r.contains_key(k) && m[k].0.subset_of(r[k].0) && m[k].1.subset_of(r[k].1)
}

/// Linking a child to its parent keeps every link, and records the new one
/// both ways.
pub proof fn lemma_link(m: History, child: Seq<u8>, parent: Seq<u8>)
    ensures
        grows(m, link(m, child, parent)),
        link(m, child, parent).contains_key(child),
        link(m, child, parent).contains_key(parent),
        link(m, child, parent)[child].0.contains(parent),
        link(m, child, parent)[parent].1.contains(child),
{
}

/// A walk keeps every link it starts from. When the first commit of the walk
/// is recorded already, the walk records nothing; otherwise, when that commit
/// has a parent, the walk links them both ways.
pub proof fn lemma_walk(m: History, nodes: Seq<(Seq<u8>, Option<Seq<u8>>)>)
    ensures
        grows(m, walk(m, nodes)),
        nodes.len() > 0 && m.contains_key(nodes[0].0) ==> walk(m, nodes) == m,
        nodes.len() > 0 && !m.contains_key(nodes[0].0) && nodes[0].1 is Some ==> ({
            let r = walk(m, nodes);
            let c = nodes[0].0;
            let p = nodes[0].1.unwrap();
            r.contains_key(c) && r.contains_key(p) && r[c].0.contains(p) && r[p].1.contains(c)
        }),
    decreases nodes.len(),
{
    if nodes.len() > 0 && !m.contains_key(nodes[0].0) {
        let next = match nodes[0].1 {
            Some(p) => link(m, nodes[0].0, p),
            None => m,
        };
        if let Some(p) = nodes[0].1 {
            lemma_link(m, nodes[0].0, p);
        }
        lemma_walk(next, nodes.skip(1));
        let r = walk(next, nodes.skip(1));
        assert(grows(m, next));
        assert forall|k: Seq<u8>| #[trigger] m.contains_key(k) implies r.contains_key(k) && m[k].0.subset_of(r[k].0)
            && m[k].1.subset_of(r[k].1) by {
            assert(next.contains_key(k));
        }
        if let Some(p) = nodes[0].1 {
            assert(next.contains_key(nodes[0].0));
            assert(next.contains_key(p));
        }
    }
}

/// Recording more branches keeps every link recorded for the first ones.
pub proof fn lemma_history_grows(branches: Seq<(Seq<u8>, Seq<(Seq<u8>, Option<Seq<u8>>)>)>, i: int)
    requires
        0 <= i <= branches.len(),
    ensures
        grows(history_of(branches.take(i)), history_of(branches)),
    decreases branches.len() - i,
{
    if i < branches.len() {
        lemma_history_grows(branches, i + 1);
        let b = branches.take(i + 1);
        assert(b.drop_last() =~= branches.take(i));
        let m = history_of(branches.take(i));
        let (tip, nodes) = b.last();
        let r = history_of(branches);
        let mid = history_of(b);
        if !m.contains_key(tip) {
            let m0 = m.insert(tip, (Set::empty(), Set::empty()));
            lemma_walk(m0, nodes);
            assert forall|k: Seq<u8>| #[trigger] m.contains_key(k) implies r.contains_key(k) && m[k].0.subset_of(r[k].0)
                && m[k].1.subset_of(r[k].1) by {
                assert(m0.contains_key(k) && m0[k] == m[k]);
                assert(mid.contains_key(k));
            }
        } else {
            assert forall|k: Seq<u8>| #[trigger] m.contains_key(k) implies r.contains_key(k) && m[k].0.subset_of(r[k].0)
                && m[k].1.subset_of(r[k].1) by {
                assert(mid.contains_key(k));
            }
        }
    } else {
        assert(branches.take(i) =~= branches);
        assert forall|k: Seq<u8>| #[trigger] history_of(branches.take(i)).contains_key(k) implies history_of(branches).contains_key(k)
            && history_of(branches.take(i))[k].0.subset_of(history_of(branches)[k].0)
            && history_of(branches.take(i))[k].1.subset_of(history_of(branches)[k].1) by {
        }
    }
}

/// What reading the entire history records: the tip of every branch; and
/// for a branch whose tip was not recorded by the branches before it, when
/// the first commit met walking from that tip is not recorded yet either and
/// has a parent, that commit and its parent, linked both ways.
pub proof fn lemma_history_links(branches: Seq<(Seq<u8>, Seq<(Seq<u8>, Option<Seq<u8>>)>)>)
    ensures
        forall|i: int| 0 <= i < branches.len() ==> history_of(branches).contains_key(#[trigger] branches[i].0),
        forall|i: int|
            0 <= i < branches.len() && !history_of(branches.take(i)).contains_key(branches[i].0)
                && (#[trigger] branches[i]).1.len() > 0 && branches[i].1[0].0 != branches[i].0
                && !history_of(branches.take(i)).contains_key(branches[i].1[0].0) && branches[i].1[0].1 is Some ==> ({
                let r = history_of(branches);
                let c = branches[i].1[0].0;
                let p = branches[i].1[0].1.unwrap();
                r.contains_key(c) && r.contains_key(p) && r[c].0.contains(p) && r[p].1.contains(c)
            }),
{
    assert forall|i: int| 0 <= i < branches.len() implies history_of(branches).contains_key(#[trigger] branches[i].0) by {
        lemma_history_step(branches, i);
    }
    assert forall|i: int|
        0 <= i < branches.len() && !history_of(branches.take(i)).contains_key(branches[i].0)
            && (#[trigger] branches[i]).1.len() > 0 && branches[i].1[0].0 != branches[i].0
            && !history_of(branches.take(i)).contains_key(branches[i].1[0].0) && branches[i].1[0].1 is Some implies ({
            let r = history_of(branches);
            let c = branches[i].1[0].0;
            let p = branches[i].1[0].1.unwrap();
            r.contains_key(c) && r.contains_key(p) && r[c].0.contains(p) && r[p].1.contains(c)
        }) by {
        lemma_history_step(branches, i);
    }
}

/// One branch's step of reading the history, as seen in the final result.
proof fn lemma_history_step(branches: Seq<(Seq<u8>, Seq<(Seq<u8>, Option<Seq<u8>>)>)>, i: int)
    requires
        0 <= i < branches.len(),
    ensures
        history_of(branches).contains_key(branches[i].0),
        !history_of(branches.take(i)).contains_key(branches[i].0) && branches[i].1.len() > 0
            && branches[i].1[0].0 != branches[i].0 && !history_of(branches.take(i)).contains_key(branches[i].1[0].0)
            && branches[i].1[0].1 is Some ==> ({
            let r = history_of(branches);
            let c = branches[i].1[0].0;
            let p = branches[i].1[0].1.unwrap();
            r.contains_key(c) && r.contains_key(p) && r[c].0.contains(p) && r[p].1.contains(c)
        }),
{
    let b = branches.take(i + 1);
    assert(b.drop_last() =~= branches.take(i));
    assert(b.last() == branches[i]);
    let m = history_of(branches.take(i));
    let (tip, nodes) = branches[i];
    let mid = history_of(b);
    lemma_history_grows(branches, i + 1);
    let r = history_of(branches);
    if !m.contains_key(tip) {
        let m0 = m.insert(tip, (Set::empty(), Set::empty()));
        lemma_walk(m0, nodes);
        assert(m0.contains_key(tip));
        assert(mid.contains_key(tip));
        if nodes.len() > 0 && nodes[0].0 != tip && !m.contains_key(nodes[0].0) && nodes[0].1 is Some {
            let c = nodes[0].0;
            let p = nodes[0].1.unwrap();
            assert(!m0.contains_key(c));
            assert(mid.contains_key(c) && mid.contains_key(p));
            assert(mid[c].0.subset_of(r[c].0));
            assert(mid[p].1.subset_of(r[p].1));
        }
    } else {
        assert(mid.contains_key(tip));
    }
}

} // verus!
