//! The places of the commits of a history graph, from the tips of its
//! branches up through their parents.
use vstd::prelude::*;
use crate::graph::{
    acyclic, layout, layout_fits, layout_visits, lemma_layout_visits_prefix, lemma_place_bound,
    lemma_visits_positive, lemma_layout_apart, lemma_layout_grid, on_grid, place, place_node, rank_of, ranked, HistoryGraph, GAP, INIT,
};
use crate::oid::Oid;
use crate::table::Table;

verus! {

/// The ids of the tips of the branches, in order.
pub open spec fn leaf_ids(leaves: Seq<(String, Oid)>) -> Seq<Seq<u8>> {
    leaves.map_values(|x: (String, Oid)| x.1@)
}

/// The place of each commit on the grid, by id.
pub struct Coordinates(pub Table<Oid, (usize, usize)>);

impl Coordinates {
    /// The places of the commits of `hg`: the tips of its branches side by
    /// side on the first row, each with its parents one row below, side by
    /// side from its column on, and so on down. Every tip is placed, and every
    /// placed commit lies `d` parents below a tip, on the row `d` gaps below
    /// the first, in a column a whole number of gaps right of the first. No two
    /// commits share a place.
    pub fn from(hg: &HistoryGraph) -> (res: Coordinates)
        requires
            hg.parents.wf(),
            acyclic(hg.parents.view()),
            layout_fits(hg.parents.view(), leaf_ids(hg.leaves@)),
        ensures
            res.0.wf(),
            res.0.view() == layout(hg.parents.view(), leaf_ids(hg.leaves@), crate::graph::rank_of(hg.parents.view())).0,
            on_grid(hg.parents.view(), leaf_ids(hg.leaves@), res.0.view()),
            forall|k1: Seq<u8>, k2: Seq<u8>|
                #[trigger] res.0.view().contains_key(k1) && #[trigger] res.0.view().contains_key(k2) && k1 != k2
                    ==> res.0.view()[k1] != res.0.view()[k2],
    {
        let mut tips: Vec<Oid> = Vec::new();
        let n = hg.leaves.len();
        let mut i: usize = 0;
        while i < n
            invariant
                i <= n,
                n == hg.leaves@.len(),
                tips@.map_values(|o: Oid| o@) == leaf_ids(hg.leaves@).take(i as int),
            decreases n - i,
        {
            let ghost before = tips@;
            tips.push(hg.leaves[i].1);
            proof {
                let ids = leaf_ids(hg.leaves@);
                assert(tips@.map_values(|o: Oid| o@) =~= before.map_values(|o: Oid| o@).push(hg.leaves@[i as int].1@));
                assert(ids[i as int] == hg.leaves@[i as int].1@);
                assert(ids.take(i + 1) =~= ids.take(i as int).push(ids[i as int]));
            }
            i = i + 1;
        }
        assert(leaf_ids(hg.leaves@).take(n as int) =~= leaf_ids(hg.leaves@));
        let starts = &tips;
        let ghost g = hg.parents.view();
        let ghost rank = rank_of(g);
        let ghost sv = leaf_ids(hg.leaves@);
        let mut nodes = Coordinates(Table::new());
        let (mut next_x, init_y) = Coordinates::init();
        let n = starts.len();
        let mut i: usize = 0;
        assert(sv.take(0) =~= Seq::<Seq<u8>>::empty());
        assert(nodes.0.view() =~= layout(g, sv.take(0), rank).0);
        while i < n
            invariant
                i <= n,
                n == sv.len(),
                sv == starts@.map_values(|o: Oid| o@),
                g == hg.parents.view(),
                rank == rank_of(g),
                ranked(g, rank),
                hg.parents.wf(),
                nodes.0.wf(),
                init_y == INIT.1,
                INIT.0 + GAP * (layout_visits(g, sv, rank) + 1) <= usize::MAX,
                INIT.0 <= next_x <= INIT.0 + GAP * layout_visits(g, sv.take(i as int), rank),
                (nodes.0.view(), next_x as int) == layout(g, sv.take(i as int), rank),
            decreases n - i,
        {
            let r = &starts[i];
            proof {
                assert(sv.take(i + 1).drop_last() =~= sv.take(i as int));
                assert(sv.take(i + 1).last() == r@);
                lemma_layout_visits_prefix(g, sv, rank, i as int);
                lemma_place_bound(g, nodes.0.view(), r@, next_x as int, init_y as int, rank(r@) + 1);
                lemma_visits_positive(g, r@, rank(r@) + 1);
            }
            let tmp = nodes.recursively_assign_coordinate(r, (next_x, init_y), hg, Ghost(rank), Ghost(rank(r@) + 1));
            next_x = if next_x + Coordinates::gap() >= tmp {
                next_x + Coordinates::gap()
            } else {
                tmp
            };
            i = i + 1;
        }
        assert(sv.take(n as int) =~= sv);
        proof {
            lemma_layout_grid(g, sv, rank);
            lemma_layout_apart(g, sv, rank);
        }
        nodes
    }

    /// The space between two neighbouring places.
    pub fn gap() -> (res: usize)
        ensures
            res == GAP,
    {
        GAP
    }

    /// The first place.
    pub fn init() -> (res: (usize, usize))
        ensures
            res == INIT,
    {
        INIT
    }

    /// Places `child` at `xy` and its parents below it; returns the first
    /// column free to the right.
    fn recursively_assign_coordinate(
        &mut self,
        child: &Oid,
        xy: (usize, usize),
        hg: &HistoryGraph,
        Ghost(rank): Ghost<spec_fn(Seq<u8>) -> nat>,
        Ghost(fuel): Ghost<nat>,
    ) -> (res: usize)
        requires
            old(self).0.wf(),
            hg.parents.wf(),
            ranked(hg.parents.view(), rank),
            rank(child@) < fuel,
            xy.0 + GAP * crate::graph::visits(hg.parents.view(), child@, fuel) <= usize::MAX,
            xy.1 + GAP * crate::graph::visits(hg.parents.view(), child@, fuel) <= usize::MAX,
        ensures
            final(self).0.wf(),
            (final(self).0.view(), res as int) == place(
                hg.parents.view(),
                old(self).0.view(),
                child@,
                xy.0 as int,
                xy.1 as int,
                fuel,
            ),
    {
        place_node(&mut self.0, child, xy, &hg.parents, Ghost(rank), Ghost(fuel))
    }
}

} // verus!
