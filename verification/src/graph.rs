//! Placing the commits of a history graph on a grid, to draw it.
use vstd::prelude::*;
use crate::oid::{lemma_oid_len, Oid};
use crate::table::{Key, Table};

pub mod coordinates;

verus! {

broadcast use lemma_oid_len;

impl Key for Oid {
    fn same_key(&self, other: &Self) -> (res: bool) {
        self.same(other)
    }

    fn copy_key(&self) -> (res: Self) {
        *self
    }
}

/// The commits of a history and how they are linked: the first commits of its
/// branches, the tips of its branches, and for each commit its children and
/// its parents, each list in the order it is drawn.
pub struct HistoryGraph {
    pub roots: Vec<Oid>,
    pub leaves: Vec<(String, Oid)>,
    pub children: Table<Oid, Vec<Oid>>,
    pub parents: Table<Oid, Vec<Oid>>,
}

/// The space between two neighbouring places, across and down.
pub const GAP: usize = 50;

/// The lists of commits that follow each commit, by id.
pub type Edges = Map<Seq<u8>, Seq<Oid>>;

/// The place of each commit, by id.
pub type Places = Map<Seq<u8>, (usize, usize)>;

/// The ids of the commits that follow `n`, in order.
pub open spec fn next_of(g: Edges, n: Seq<u8>) -> Seq<Seq<u8>> {
    if g.contains_key(n) {
        g[n].map_values(|o: Oid| o@)
    } else {
        Seq::empty()
    }
}

/// `rank` decreases along every edge: following edges always ends.
pub open spec fn ranked(g: Edges, rank: spec_fn(Seq<u8>) -> nat) -> bool {
    forall|n: Seq<u8>, i: int|
        #![trigger next_of(g, n)[i]]
        0 <= i < next_of(g, n).len() ==> rank(next_of(g, n)[i]) < rank(n)
}

/// Following the edges of `g` always ends.
pub open spec fn acyclic(g: Edges) -> bool {
    exists|rank: spec_fn(Seq<u8>) -> nat| ranked(g, rank)
}

/// A rank of an acyclic graph.
pub open spec fn rank_of(g: Edges) -> spec_fn(Seq<u8>) -> nat {
    choose|rank: spec_fn(Seq<u8>) -> nat| ranked(g, rank)
}

/// The number of places given when `n` is placed: one for `n`, and those
/// of each commit that follows it, through at most `fuel` levels.
pub open spec fn visits(g: Edges, n: Seq<u8>, fuel: nat) -> nat
    decreases fuel, 0nat,
{
    if fuel == 0 {
        1
    } else {
        1 + visits_all(g, next_of(g, n), (fuel - 1) as nat)
    }
}

pub open spec fn visits_all(g: Edges, cs: Seq<Seq<u8>>, fuel: nat) -> nat
    decreases fuel, cs.len(),
{
    if cs.len() == 0 {
        0
    } else {
        visits_all(g, cs.drop_last(), fuel) + visits(g, cs.last(), fuel)
    }
}

pub open spec fn max(a: int, b: int) -> int {
    if a >= b {
        a
    } else {
        b
    }
}

/// Places `n` at `(x, y)` and below it, one row further down, the commits
/// that follow it, side by side from `x` on, each with what follows it. The
/// places given, and the first column free to the right.
pub open spec fn place(g: Edges, m: Places, n: Seq<u8>, x: int, y: int, fuel: nat) -> (Places, int)
    decreases fuel, 0nat,
{
    if fuel == 0 {
        (m, x)
    } else {
        place_all(g, m.insert(n, (x as usize, y as usize)), next_of(g, n), x, y + GAP, (fuel - 1) as nat)
    }
}

/// Places each of `cs` on row `y`, from column `next` on: each where the
/// previous one left the first free column, or one gap further.
pub open spec fn place_all(g: Edges, m: Places, cs: Seq<Seq<u8>>, next: int, y: int, fuel: nat) -> (Places, int)
    decreases fuel, cs.len(),
{
    if cs.len() == 0 {
        (m, next)
    } else {
        let (m2, next2) = place_all(g, m, cs.drop_last(), next, y, fuel);
        let (m3, tmp) = place(g, m2, cs.last(), next2, y, fuel);
        (m3, max(next2 + GAP, tmp))
    }
}

pub proof fn lemma_visits_positive(g: Edges, n: Seq<u8>, fuel: nat)
    ensures
        visits(g, n, fuel) >= 1,
{
}

pub proof fn lemma_place_bound(g: Edges, m: Places, n: Seq<u8>, x: int, y: int, fuel: nat)
    ensures
        x <= place(g, m, n, x, y, fuel).1 <= x + GAP * (visits(g, n, fuel) - 1),
    decreases fuel, 0nat,
{
    if fuel > 0 {
        lemma_place_all_bound(g, m.insert(n, (x as usize, y as usize)), next_of(g, n), x, y + GAP, (fuel - 1) as nat);
    }
}

proof fn lemma_place_all_bound(g: Edges, m: Places, cs: Seq<Seq<u8>>, next: int, y: int, fuel: nat)
    ensures
        next <= place_all(g, m, cs, next, y, fuel).1 <= next + GAP * visits_all(g, cs, fuel),
    decreases fuel, cs.len(),
{
    if cs.len() > 0 {
        lemma_place_all_bound(g, m, cs.drop_last(), next, y, fuel);
        let (m2, next2) = place_all(g, m, cs.drop_last(), next, y, fuel);
        lemma_place_bound(g, m2, cs.last(), next2, y, fuel);
        lemma_visits_positive(g, cs.last(), fuel);
    }
}

/// Places `n` at `xy`, and what follows it below, into `places`; returns the
/// first column free to the right.
pub fn place_node(
    places: &mut Table<Oid, (usize, usize)>,
    n: &Oid,
    xy: (usize, usize),
    edges: &Table<Oid, Vec<Oid>>,
    Ghost(rank): Ghost<spec_fn(Seq<u8>) -> nat>,
    Ghost(fuel): Ghost<nat>,
) -> (res: usize)
    requires
        old(places).wf(),
        edges.wf(),
        ranked(edges.view(), rank),
        rank(n@) < fuel,
        xy.0 + GAP * visits(edges.view(), n@, fuel) <= usize::MAX,
        xy.1 + GAP * visits(edges.view(), n@, fuel) <= usize::MAX,
    ensures
        final(places).wf(),
        (final(places).view(), res as int) == place(edges.view(), old(places).view(), n@, xy.0 as int, xy.1 as int, fuel),
    decreases fuel,
{
    places.insert(*n, xy);
    let mut next_x = xy.0;
    let empty: Vec<Oid> = Vec::new();
    let cs = match edges.get(n) {
        Some(v) => v,
        None => &empty,
    };
    let ghost g = edges.view();
    let ghost csv = next_of(g, n@);
    let ghost f = (fuel - 1) as nat;
    assert(cs@.map_values(|o: Oid| o@) =~= csv);
    assert forall|j: int| 0 <= j < csv.len() implies rank(#[trigger] csv[j]) < rank(n@) by {
        assert(next_of(g, n@)[j] == csv[j]);
    }
    let k = cs.len();
    let mut i: usize = 0;
    proof {
        assert(csv.take(0) =~= Seq::<Seq<u8>>::empty());
    }
    while i < k
        invariant
            i <= k,
            k == cs@.len(),
            csv == cs@.map_values(|o: Oid| o@),
            g == edges.view(),
            edges.wf(),
            places.wf(),
            fuel > 0,
            f == fuel - 1,
            ranked(g, rank),
            forall|j: int| 0 <= j < csv.len() ==> rank(#[trigger] csv[j]) < rank(n@),
            rank(n@) < fuel,
            visits(g, n@, fuel) == 1 + visits_all(g, csv, f),
            xy.0 + GAP * visits(g, n@, fuel) <= usize::MAX,
            xy.1 + GAP * visits(g, n@, fuel) <= usize::MAX,
            xy.0 <= next_x <= xy.0 + GAP * visits_all(g, csv.take(i as int), f),
            (places.view(), next_x as int) == place_all(
                g,
                old(places).view().insert(n@, xy),
                csv.take(i as int),
                xy.0 as int,
                xy.1 + GAP,
                f,
            ),
        decreases k - i,
    {
        let c = &cs[i];
        proof {
            assert(csv.take(i + 1).drop_last() =~= csv.take(i as int));
            assert(csv.take(i + 1).last() == c@);
            lemma_visits_all_prefix(g, csv, i as int, f);
        }
        assert(rank(c@) < rank(n@));
        let tmp = place_node(places, c, (next_x, xy.1 + GAP), edges, Ghost(rank), Ghost(f));
        proof {
            lemma_place_bound(g, place_all(g, old(places).view().insert(n@, xy), csv.take(i as int), xy.0 as int, xy.1 + GAP, f).0, c@, next_x as int, xy.1 + GAP, f);
            lemma_visits_positive(g, c@, f);
        }
        next_x = if next_x + GAP >= tmp {
            next_x + GAP
        } else {
            tmp
        };
        i = i + 1;
    }
    assert(csv.take(k as int) =~= csv);
    next_x
}

proof fn lemma_visits_all_prefix(g: Edges, cs: Seq<Seq<u8>>, i: int, fuel: nat)
    requires
        0 <= i < cs.len(),
    ensures
        visits_all(g, cs.take(i + 1), fuel) == visits_all(g, cs.take(i), fuel) + visits(g, cs[i], fuel),
        visits_all(g, cs.take(i + 1), fuel) <= visits_all(g, cs, fuel),
    decreases cs.len() - i,
{
    assert(cs.take(i + 1).drop_last() =~= cs.take(i));
    if i + 1 < cs.len() {
        lemma_visits_all_prefix(g, cs, i + 1, fuel);
    } else {
        assert(cs.take(i + 1) =~= cs);
    }
}

/// The first place given: the first column and the first row.
pub const INIT: (usize, usize) = (50, 50);

/// The places of the commits of `starts` and of what follows each: the
/// starts side by side on the first row, from the first column on, each
/// where the previous one left the first free column, or one gap further.
/// The places given, and the first column free to the right.
pub open spec fn layout(g: Edges, starts: Seq<Seq<u8>>, rank: spec_fn(Seq<u8>) -> nat) -> (Places, int)
    decreases starts.len(),
{
    if starts.len() == 0 {
        (Map::empty(), INIT.0 as int)
    } else {
        let (m, next) = layout(g, starts.drop_last(), rank);
        let (m2, tmp) = place(g, m, starts.last(), next, INIT.1 as int, rank(starts.last()) + 1);
        (m2, max(next + GAP, tmp))
    }
}

/// The number of places `layout` gives.
pub open spec fn layout_visits(g: Edges, starts: Seq<Seq<u8>>, rank: spec_fn(Seq<u8>) -> nat) -> nat
    decreases starts.len(),
{
    if starts.len() == 0 {
        0
    } else {
        layout_visits(g, starts.drop_last(), rank) + visits(g, starts.last(), rank(starts.last()) + 1)
    }
}

/// The layout fits on the grid: no column or row passes the largest number.
pub open spec fn layout_fits(g: Edges, starts: Seq<Seq<u8>>) -> bool {
    INIT.0 + GAP * (layout_visits(g, starts, rank_of(g)) + 1) <= usize::MAX
}

pub proof fn lemma_layout_visits_prefix(g: Edges, starts: Seq<Seq<u8>>, rank: spec_fn(Seq<u8>) -> nat, i: int)
    requires
        0 <= i < starts.len(),
    ensures
        layout_visits(g, starts.take(i + 1), rank) == layout_visits(g, starts.take(i), rank) + visits(
            g,
            starts[i],
            rank(starts[i]) + 1,
        ),
        layout_visits(g, starts.take(i + 1), rank) <= layout_visits(g, starts, rank),
    decreases starts.len() - i,
{
    assert(starts.take(i + 1).drop_last() =~= starts.take(i));
    if i + 1 < starts.len() {
        lemma_layout_visits_prefix(g, starts, rank, i + 1);
    } else {
        assert(starts.take(i + 1) =~= starts);
    }
}

/// Each commit of `p` is followed by the next one in `g`.
pub open spec fn is_path(g: Edges, p: Seq<Seq<u8>>) -> bool {
    forall|j: int| 0 <= j < p.len() - 1 ==> next_of(g, p[j]).contains(#[trigger] p[j + 1])
}

/// `b` is reached from `a` by following `d` edges of `g`.
pub open spec fn connects(g: Edges, a: Seq<u8>, b: Seq<u8>, d: nat) -> bool {
    exists|p: Seq<Seq<u8>>| #[trigger] is_path(g, p) && p.len() == d + 1 && p[0] == a && p.last() == b
}

/// Every commit that `place` puts into `m2` and that `m` did not hold as it
/// is, lies `d` edges below `n`, on row `y + d` gaps, from column `x` on, in a
/// column a whole number of gaps from `x`.
pub open spec fn placed_below(g: Edges, m: Places, m2: Places, n: Seq<u8>, x: int, y: int, bound: nat) -> bool {
    &&& forall|k: Seq<u8>| #[trigger] m.contains_key(k) ==> m2.contains_key(k)
    &&& forall|k: Seq<u8>|
        #[trigger] m2.contains_key(k) ==> (m.contains_key(k) && m2[k] == m[k]) || exists|d: nat|
            d < bound && #[trigger] connects(g, n, k, d) && m2[k].1 == y + GAP * d && x <= m2[k].0 && (m2[k].0
                - x) % (GAP as int) == 0
}

/// The same for a list of commits placed side by side from column `x` on.
pub open spec fn placed_below_all(g: Edges, m: Places, m2: Places, cs: Seq<Seq<u8>>, x: int, y: int, bound: nat) -> bool {
    &&& forall|k: Seq<u8>| #[trigger] m.contains_key(k) ==> m2.contains_key(k)
    &&& forall|k: Seq<u8>|
        #[trigger] m2.contains_key(k) ==> (m.contains_key(k) && m2[k] == m[k]) || exists|i: int, d: nat|
            0 <= i < cs.len() && d < bound && #[trigger] connects(g, cs[i], k, d) && m2[k].1 == y + GAP * d && x
                <= m2[k].0 && (m2[k].0 - x) % (GAP as int) == 0
}

proof fn lemma_connects_self(g: Edges, a: Seq<u8>)
    ensures
        connects(g, a, a, 0),
{
    assert(is_path(g, seq![a]));
}

proof fn lemma_connects_step(g: Edges, a: Seq<u8>, i: int, b: Seq<u8>, d: nat)
    requires
        0 <= i < next_of(g, a).len(),
        connects(g, next_of(g, a)[i], b, d),
    ensures
        connects(g, a, b, d + 1),
{
    let q = choose|q: Seq<Seq<u8>>| #[trigger] is_path(g, q) && q.len() == d + 1 && q[0] == next_of(g, a)[i] && q.last() == b;
    let p = seq![a] + q;
    assert forall|j: int| 0 <= j < p.len() - 1 implies next_of(g, p[j]).contains(#[trigger] p[j + 1]) by {
        if j == 0 {
            assert(p[1] == q[0]);
            assert(next_of(g, a)[i] == p[1]);
        } else {
            let j1 = j - 1;
            assert(p[j] == q[j1]);
            assert(p[j + 1] == q[j1 + 1]);
            assert(next_of(g, q[j1]).contains(q[j1 + 1]));
        }
    }
    assert(is_path(g, p));
    assert(p.last() == q.last());
}

proof fn lemma_gap_steps(a: int, b: int, c: int)
    requires
        (b - a) % (GAP as int) == 0,
        (c - b) % (GAP as int) == 0,
    ensures
        (c - a) % (GAP as int) == 0,
{
    assert((c - a) % 50 == 0) by (nonlinear_arith)
        requires
            (b - a) % 50 == 0,
            (c - b) % 50 == 0,
    ;
}

proof fn lemma_place_grid(g: Edges, m: Places, n: Seq<u8>, x: int, y: int, fuel: nat)
    requires
        0 <= x,
        0 <= y,
        x + GAP * visits(g, n, fuel) <= usize::MAX,
        y + GAP * visits(g, n, fuel) <= usize::MAX,
    ensures
        (place(g, m, n, x, y, fuel).1 - x) % (GAP as int) == 0,
        fuel > 0 ==> place(g, m, n, x, y, fuel).0.contains_key(n),
        placed_below(g, m, place(g, m, n, x, y, fuel).0, n, x, y, visits(g, n, fuel)),
    decreases fuel, 0nat,
{
    if fuel > 0 {
        let f = (fuel - 1) as nat;
        let cs = next_of(g, n);
        let m1 = m.insert(n, (x as usize, y as usize));
        lemma_place_all_grid(g, m1, cs, x, y + GAP, f);
        let m2 = place(g, m, n, x, y, fuel).0;
        assert forall|k: Seq<u8>| #[trigger] m2.contains_key(k) implies (m.contains_key(k) && m2[k] == m[k])
            || exists|d: nat| d < visits(g, n, fuel) && #[trigger] connects(g, n, k, d) && m2[k].1 == y + GAP * d && x
                <= m2[k].0 && (m2[k].0 - x) % (GAP as int) == 0 by {
            if m1.contains_key(k) && m2[k] == m1[k] {
                if k == n {
                    lemma_connects_self(g, n);
                    assert(m2[k].1 == y + GAP * 0);
                    assert((m2[k].0 - x) % (GAP as int) == 0);
                    assert(0 < visits(g, n, fuel));
                } else {
                    assert(m.contains_key(k) && m2[k] == m[k]);
                }
            } else {
                assert(exists|i: int, d: nat|
                    0 <= i < cs.len() && d < visits_all(g, cs, f) && #[trigger] connects(g, cs[i], k, d) && m2[k].1 == y + GAP
                        + GAP * d && x <= m2[k].0 && (m2[k].0 - x) % (GAP as int) == 0);
                let (i, d) = choose|i: int, d: nat|
                    0 <= i < cs.len() && d < visits_all(g, cs, f) && #[trigger] connects(g, cs[i], k, d) && m2[k].1 == y + GAP
                        + GAP * d && x <= m2[k].0 && (m2[k].0 - x) % (GAP as int) == 0;
                let d1: nat = d + 1;
                lemma_connects_step(g, n, i, k, d);
                assert(connects(g, n, k, d1));
                assert(m2[k].1 == y + GAP * d1);
                assert(d1 < visits(g, n, fuel));
                assert(exists|dd: nat| dd < visits(g, n, fuel) && #[trigger] connects(g, n, k, dd) && m2[k].1 == y + GAP * dd && x
                    <= m2[k].0 && (m2[k].0 - x) % (GAP as int) == 0);
            }
        }
        assert forall|k: Seq<u8>| #[trigger] m.contains_key(k) implies m2.contains_key(k) by {
            assert(m1.contains_key(k));
        }
        assert(m1.contains_key(n));
    }
}

proof fn lemma_place_all_grid(g: Edges, m: Places, cs: Seq<Seq<u8>>, next: int, y: int, fuel: nat)
    requires
        0 <= next,
        0 <= y,
        next + GAP * visits_all(g, cs, fuel) <= usize::MAX,
        y + GAP * visits_all(g, cs, fuel) <= usize::MAX,
    ensures
        (place_all(g, m, cs, next, y, fuel).1 - next) % (GAP as int) == 0,
        forall|i: int| 0 <= i < cs.len() && fuel > 0 ==> place_all(g, m, cs, next, y, fuel).0.contains_key(#[trigger] cs[i]),
        placed_below_all(g, m, place_all(g, m, cs, next, y, fuel).0, cs, next, y, visits_all(g, cs, fuel)),
    decreases fuel, cs.len(),
{
    if cs.len() > 0 {
        let p = cs.drop_last();
        let last = cs.last();
        lemma_place_all_grid(g, m, p, next, y, fuel);
        lemma_place_all_bound(g, m, p, next, y, fuel);
        let (m2, next2) = place_all(g, m, p, next, y, fuel);
        lemma_place_grid(g, m2, last, next2, y, fuel);
        lemma_place_bound(g, m2, last, next2, y, fuel);
        let (m3, tmp) = place(g, m2, last, next2, y, fuel);
        lemma_gap_steps(next, next2, tmp);
        lemma_gap_steps(next, next2, next2 + GAP);
        assert forall|i: int| 0 <= i < cs.len() && fuel > 0 implies m3.contains_key(#[trigger] cs[i]) by {
            if i < p.len() {
                assert(p[i] == cs[i]);
            }
        }
        assert forall|k: Seq<u8>| #[trigger] m3.contains_key(k) implies (m.contains_key(k) && m3[k] == m[k]) || exists|
            i: int,
            d: nat,
        |
            0 <= i < cs.len() && d < visits_all(g, cs, fuel) && #[trigger] connects(g, cs[i], k, d) && m3[k].1 == y
                + GAP * d && next <= m3[k].0 && (m3[k].0 - next) % (GAP as int) == 0 by {
            if m2.contains_key(k) && m3[k] == m2[k] {
                if !(m.contains_key(k) && m2[k] == m[k]) {
                    let (i, d) = choose|i: int, d: nat|
                        0 <= i < p.len() && d < visits_all(g, p, fuel) && #[trigger] connects(g, p[i], k, d) && m2[k].1
                            == y + GAP * d && next <= m2[k].0 && (m2[k].0 - next) % (GAP as int) == 0;
                    assert(cs[i] == p[i]);
                }
            } else {
                let d = choose|d: nat|
                    d < visits(g, last, fuel) && #[trigger] connects(g, last, k, d) && m3[k].1 == y + GAP * d && next2
                        <= m3[k].0 && (m3[k].0 - next2) % (GAP as int) == 0;
                lemma_gap_steps(next, next2, m3[k].0 as int);
                assert(cs[cs.len() - 1] == last);
            }
        }
    }
}

/// Where a layout puts the commits: every start is placed, and every placed
/// commit lies `d` edges below one of the starts, on row `d` (counting from
/// the first), in a column a whole number of gaps from the first.
#[verifier::opaque]
pub open spec fn on_grid(g: Edges, starts: Seq<Seq<u8>>, m: Places) -> bool {
    &&& forall|i: int| 0 <= i < starts.len() ==> m.contains_key(#[trigger] starts[i])
    &&& forall|k: Seq<u8>|
        #[trigger] m.contains_key(k) ==> m[k].0 >= INIT.0 && (m[k].0 - INIT.0) % (GAP as int) == 0 && exists|
            i: int,
            d: nat,
        | 0 <= i < starts.len() && #[trigger] connects(g, starts[i], k, d) && m[k].1 == INIT.1 + GAP * d
}

/// The grid law of a layout that fits: every start is placed, and every
/// placed commit lies `d` edges below a start, on the row `d` gaps below the
/// first, in a column a whole number of gaps right of the first.
pub proof fn lemma_layout_grid(g: Edges, starts: Seq<Seq<u8>>, rank: spec_fn(Seq<u8>) -> nat)
    requires
        INIT.0 + GAP * (layout_visits(g, starts, rank) + 1) <= usize::MAX,
    ensures
        on_grid(g, starts, layout(g, starts, rank).0),
        layout(g, starts, rank).1 >= INIT.0,
        (layout(g, starts, rank).1 - INIT.0) % (GAP as int) == 0,
        layout(g, starts, rank).1 <= INIT.0 + GAP * layout_visits(g, starts, rank),
    decreases starts.len(),
{
    if starts.len() == 0 {
        reveal(on_grid);
    } else {
        let p = starts.drop_last();
        let last = starts.last();
        let f = rank(last) + 1;
        lemma_layout_grid(g, p, rank);
        let (m, next) = layout(g, p, rank);
        lemma_place_grid(g, m, last, next, INIT.1 as int, f);
        lemma_place_bound(g, m, last, next, INIT.1 as int, f);
        let (m2, tmp) = place(g, m, last, next, INIT.1 as int, f);
        lemma_gap_steps(INIT.0 as int, next, tmp);
        lemma_gap_steps(INIT.0 as int, next, next + GAP);
        lemma_grid_step(g, starts, m, m2, next, visits(g, last, f));
    }
}


proof fn lemma_grid_step(g: Edges, starts: Seq<Seq<u8>>, m: Places, m2: Places, next: int, bound: nat)
    requires
        starts.len() > 0,
        on_grid(g, starts.drop_last(), m),
        next >= INIT.0,
        (next - INIT.0) % (GAP as int) == 0,
        placed_below(g, m, m2, starts.last(), next, INIT.1 as int, bound),
        m2.contains_key(starts.last()),
    ensures
        on_grid(g, starts, m2),
{
    reveal(on_grid);
    let p = starts.drop_last();
    let last = starts.last();
    assert forall|i: int| 0 <= i < starts.len() implies m2.contains_key(#[trigger] starts[i]) by {
        if i < p.len() {
            assert(p[i] == starts[i]);
            assert(m.contains_key(p[i]));
        }
    }
    assert forall|k: Seq<u8>| #[trigger] m2.contains_key(k) implies m2[k].0 >= INIT.0 && (m2[k].0 - INIT.0) % (GAP as int)
        == 0 && exists|i: int, d: nat|
        0 <= i < starts.len() && #[trigger] connects(g, starts[i], k, d) && m2[k].1 == INIT.1 + GAP * d by {
        if m.contains_key(k) && m2[k] == m[k] {
            let (i, d) = choose|i: int, d: nat|
                0 <= i < p.len() && #[trigger] connects(g, p[i], k, d) && m[k].1 == INIT.1 + GAP * d;
            assert(starts[i] == p[i]);
        } else {
            let d = choose|d: nat|
                d < bound && #[trigger] connects(g, last, k, d) && m2[k].1 == INIT.1 + GAP * d && next <= m2[k].0 && (m2[k].0
                    - next) % (GAP as int) == 0;
            lemma_gap_steps(INIT.0 as int, next, m2[k].0 as int);
            assert(starts[starts.len() - 1] == last);
        }
    }
}

/// `m2` places `k` anew: `m` did not hold `k` at that place.
pub open spec fn placed_anew(m: Places, m2: Places, k: Seq<u8>) -> bool {
    m2.contains_key(k) && !(m.contains_key(k) && m2[k] == m[k])
}

/// Columns taken by placing `n` at column `x`: every commit placed anew lies
/// from column `x` on, left of the first free column that `place` returns, or
/// in column `x` itself when nothing follows `n`. The next commit placed to
/// the right, from that free column or one gap further, overlaps none of them.
pub proof fn lemma_place_span(g: Edges, m: Places, n: Seq<u8>, x: int, y: int, fuel: nat)
    requires
        0 <= x,
        x + GAP * visits(g, n, fuel) <= usize::MAX,
    ensures
        forall|k: Seq<u8>|
            #[trigger] placed_anew(m, place(g, m, n, x, y, fuel).0, k) ==> x <= place(g, m, n, x, y, fuel).0[k].0 < max(
                place(g, m, n, x, y, fuel).1,
                x + GAP,
            ),
    decreases fuel, 0nat,
{
    if fuel > 0 {
        let f = (fuel - 1) as nat;
        let cs = next_of(g, n);
        let m1 = m.insert(n, (x as usize, y as usize));
        assert(visits(g, n, fuel) == 1 + visits_all(g, cs, f));
        assert(x as usize == x);
        lemma_place_all_span(g, m1, cs, x, y + GAP, f);
        assert(place(g, m, n, x, y, fuel) == place_all(g, m1, cs, x, y + GAP, f));
        let (m2, r) = place(g, m, n, x, y, fuel);
        assert forall|k: Seq<u8>| #[trigger] placed_anew(m, m2, k) implies x <= m2[k].0 < max(r, x + GAP) by {
            if !placed_anew(m1, m2, k) {
                assert(k == n);
                assert(m2[k] == m1[k]);
            } else {
                assert(x <= m2[k].0 < r);
            }
        }
    }
}

/// Columns taken by placing the commits `cs` side by side from column
/// `next` on: every commit placed anew lies from column `next` on, left of
/// the first free column that `place_all` returns.
pub proof fn lemma_place_all_span(g: Edges, m: Places, cs: Seq<Seq<u8>>, next: int, y: int, fuel: nat)
    requires
        0 <= next,
        next + GAP * visits_all(g, cs, fuel) <= usize::MAX,
    ensures
        forall|k: Seq<u8>|
            #[trigger] placed_anew(m, place_all(g, m, cs, next, y, fuel).0, k) ==> next <= place_all(
                g,
                m,
                cs,
                next,
                y,
                fuel,
            ).0[k].0 < place_all(g, m, cs, next, y, fuel).1,
    decreases fuel, cs.len(),
{
    if cs.len() > 0 {
        let p = cs.drop_last();
        let last = cs.last();
        lemma_place_all_span(g, m, p, next, y, fuel);
        lemma_place_all_bound(g, m, p, next, y, fuel);
        let (m2, next2) = place_all(g, m, p, next, y, fuel);
        assert(visits_all(g, cs, fuel) == visits_all(g, p, fuel) + visits(g, last, fuel));
        lemma_place_span(g, m2, last, next2, y, fuel);
        let (m3, tmp) = place(g, m2, last, next2, y, fuel);
        assert(place_all(g, m, cs, next, y, fuel) == (m3, max(next2 + GAP, tmp)));
        let r = max(next2 + GAP, tmp);
        assert forall|k: Seq<u8>| #[trigger] placed_anew(m, m3, k) implies next <= m3[k].0 < r by {
            if !placed_anew(m2, m3, k) {
                assert(m3[k] == m2[k]);
                assert(placed_anew(m, m2, k));
            } else {
                assert(next2 <= m3[k].0 < max(tmp, next2 + GAP));
            }
        }
    }
}

/// Siblings' subtrees take columns apart: placing the commits `cs` side by
/// side from column `next` on, the commits placed anew for those before the
/// last lie from `next` on and left of the first free column they leave; the
/// last is placed from that column on, and the commits placed anew for it lie
/// from that column on and left of the first free column `place_all` returns.
pub proof fn lemma_siblings_apart(g: Edges, m: Places, cs: Seq<Seq<u8>>, next: int, y: int, fuel: nat)
    requires
        cs.len() > 0,
        0 <= next,
        next + GAP * visits_all(g, cs, fuel) <= usize::MAX,
    ensures
        ({
            let (m2, next2) = place_all(g, m, cs.drop_last(), next, y, fuel);
            let (m3, r) = place_all(g, m, cs, next, y, fuel);
            &&& forall|k: Seq<u8>| #[trigger] placed_anew(m, m2, k) ==> next <= m2[k].0 < next2
            &&& forall|k: Seq<u8>| #[trigger] placed_anew(m2, m3, k) ==> next2 <= m3[k].0 < r
        }),
{
    let p = cs.drop_last();
    let last = cs.last();
    lemma_place_all_span(g, m, p, next, y, fuel);
    lemma_place_all_bound(g, m, p, next, y, fuel);
    let (m2, next2) = place_all(g, m, p, next, y, fuel);
    assert(visits_all(g, cs, fuel) == visits_all(g, p, fuel) + visits(g, last, fuel));
    lemma_place_span(g, m2, last, next2, y, fuel);
    let (m3, tmp) = place(g, m2, last, next2, y, fuel);
    assert(place_all(g, m, cs, next, y, fuel) == (m3, max(next2 + GAP, tmp)));
}

/// Columns taken by a layout that fits: every placed commit lies from the
/// first column on and left of the first free column the layout returns, and
/// the commits placed for the starts before the last lie left of the column
/// where the last start is placed.
pub proof fn lemma_layout_span(g: Edges, starts: Seq<Seq<u8>>, rank: spec_fn(Seq<u8>) -> nat)
    requires
        INIT.0 + GAP * (layout_visits(g, starts, rank) + 1) <= usize::MAX,
    ensures
        forall|k: Seq<u8>|
            #[trigger] layout(g, starts, rank).0.contains_key(k) ==> INIT.0 <= layout(g, starts, rank).0[k].0 < layout(
                g,
                starts,
                rank,
            ).1,
        starts.len() > 0 ==> forall|k: Seq<u8>|
            #[trigger] layout(g, starts.drop_last(), rank).0.contains_key(k) ==> layout(
                g,
                starts.drop_last(),
                rank,
            ).0[k].0 < layout(g, starts.drop_last(), rank).1,
    decreases starts.len(),
{
    if starts.len() > 0 {
        let p = starts.drop_last();
        let last = starts.last();
        let f = rank(last) + 1;
        lemma_layout_span(g, p, rank);
        lemma_layout_grid(g, p, rank);
        let (m, next) = layout(g, p, rank);
        lemma_place_span(g, m, last, next, INIT.1 as int, f);
        let (m2, tmp) = place(g, m, last, next, INIT.1 as int, f);
        assert(layout(g, starts, rank) == (m2, max(next + GAP, tmp)));
        assert forall|k: Seq<u8>| #[trigger] m2.contains_key(k) implies INIT.0 <= m2[k].0 < max(next + GAP, tmp) by {
            if !placed_anew(m, m2, k) {
                assert(m.contains_key(k) && m2[k] == m[k]);
            }
        }
    }
}

/// No two commits that `m2` places anew share a place.
pub open spec fn apart(m: Places, m2: Places) -> bool {
    forall|k1: Seq<u8>, k2: Seq<u8>|
        #[trigger] placed_anew(m, m2, k1) && #[trigger] placed_anew(m, m2, k2) && k1 != k2 ==> m2[k1] != m2[k2]
}

/// Placing a commit and what follows it gives no two commits the same
/// place.
pub proof fn lemma_place_apart(g: Edges, m: Places, n: Seq<u8>, x: int, y: int, fuel: nat)
    requires
        0 <= x,
        0 <= y,
        x + GAP * visits(g, n, fuel) <= usize::MAX,
        y + GAP * visits(g, n, fuel) <= usize::MAX,
    ensures
        apart(m, place(g, m, n, x, y, fuel).0),
    decreases fuel, 0nat,
{
    if fuel > 0 {
        let f = (fuel - 1) as nat;
        let cs = next_of(g, n);
        let m1 = m.insert(n, (x as usize, y as usize));
        assert(visits(g, n, fuel) == 1 + visits_all(g, cs, f));
        assert(x as usize == x && y as usize == y);
        lemma_place_all_apart(g, m1, cs, x, y + GAP, f);
        lemma_place_all_grid(g, m1, cs, x, y + GAP, f);
        assert(place(g, m, n, x, y, fuel) == place_all(g, m1, cs, x, y + GAP, f));
        let m2 = place(g, m, n, x, y, fuel).0;
        assert forall|k: Seq<u8>| #[trigger] placed_anew(m1, m2, k) implies m2[k].1 >= y + GAP by {
            let (i, d) = choose|i: int, d: nat|
                0 <= i < cs.len() && d < visits_all(g, cs, f) && #[trigger] connects(g, cs[i], k, d) && m2[k].1 == y + GAP
                    + GAP * d && x <= m2[k].0 && (m2[k].0 - x) % (GAP as int) == 0;
        }
        assert forall|k1: Seq<u8>, k2: Seq<u8>|
            #[trigger] placed_anew(m, m2, k1) && #[trigger] placed_anew(m, m2, k2) && k1 != k2 implies m2[k1] != m2[k2] by {
            if !placed_anew(m1, m2, k1) {
                assert(k1 == n);
                assert(m2[k1] == m1[n]);
                assert(placed_anew(m1, m2, k2));
            } else if !placed_anew(m1, m2, k2) {
                assert(k2 == n);
                assert(m2[k2] == m1[n]);
            } else {
                assert(placed_anew(m1, m2, k1) && placed_anew(m1, m2, k2));
            }
        }
    }
}

/// Placing commits side by side gives no two commits the same place.
pub proof fn lemma_place_all_apart(g: Edges, m: Places, cs: Seq<Seq<u8>>, next: int, y: int, fuel: nat)
    requires
        0 <= next,
        0 <= y,
        next + GAP * visits_all(g, cs, fuel) <= usize::MAX,
        y + GAP * visits_all(g, cs, fuel) <= usize::MAX,
    ensures
        apart(m, place_all(g, m, cs, next, y, fuel).0),
    decreases fuel, cs.len(),
{
    if cs.len() > 0 {
        let p = cs.drop_last();
        let last = cs.last();
        assert(visits_all(g, cs, fuel) == visits_all(g, p, fuel) + visits(g, last, fuel));
        lemma_place_all_apart(g, m, p, next, y, fuel);
        lemma_place_all_span(g, m, p, next, y, fuel);
        lemma_place_all_bound(g, m, p, next, y, fuel);
        let (m2, next2) = place_all(g, m, p, next, y, fuel);
        lemma_place_apart(g, m2, last, next2, y, fuel);
        lemma_place_span(g, m2, last, next2, y, fuel);
        let (m3, tmp) = place(g, m2, last, next2, y, fuel);
        assert(place_all(g, m, cs, next, y, fuel).0 == m3);
        assert forall|k1: Seq<u8>, k2: Seq<u8>|
            #[trigger] placed_anew(m, m3, k1) && #[trigger] placed_anew(m, m3, k2) && k1 != k2 implies m3[k1] != m3[k2] by {
            if !placed_anew(m2, m3, k1) {
                assert(m3[k1] == m2[k1] && placed_anew(m, m2, k1));
                if !placed_anew(m2, m3, k2) {
                    assert(m3[k2] == m2[k2] && placed_anew(m, m2, k2));
                } else {
                    assert(m3[k1].0 < next2 <= m3[k2].0);
                }
            } else if !placed_anew(m2, m3, k2) {
                assert(m3[k2] == m2[k2] && placed_anew(m, m2, k2));
                assert(m3[k2].0 < next2 <= m3[k1].0);
            }
        }
    }
}

/// A layout that fits gives no two commits the same place.
pub proof fn lemma_layout_apart(g: Edges, starts: Seq<Seq<u8>>, rank: spec_fn(Seq<u8>) -> nat)
    requires
        INIT.0 + GAP * (layout_visits(g, starts, rank) + 1) <= usize::MAX,
    ensures
        forall|k1: Seq<u8>, k2: Seq<u8>|
            #[trigger] layout(g, starts, rank).0.contains_key(k1) && #[trigger] layout(g, starts, rank).0.contains_key(k2)
                && k1 != k2 ==> layout(g, starts, rank).0[k1] != layout(g, starts, rank).0[k2],
    decreases starts.len(),
{
    if starts.len() > 0 {
        let p = starts.drop_last();
        let last = starts.last();
        let f = rank(last) + 1;
        lemma_layout_apart(g, p, rank);
        lemma_layout_span(g, p, rank);
        lemma_layout_grid(g, p, rank);
        let (m, next) = layout(g, p, rank);
        lemma_place_apart(g, m, last, next, INIT.1 as int, f);
        lemma_place_span(g, m, last, next, INIT.1 as int, f);
        let (m2, tmp) = place(g, m, last, next, INIT.1 as int, f);
        assert(layout(g, starts, rank).0 == m2);
        assert forall|k1: Seq<u8>, k2: Seq<u8>|
            #[trigger] m2.contains_key(k1) && #[trigger] m2.contains_key(k2) && k1 != k2 implies m2[k1] != m2[k2] by {
            if !placed_anew(m, m2, k1) {
                assert(m.contains_key(k1) && m2[k1] == m[k1]);
                if !placed_anew(m, m2, k2) {
                    assert(m.contains_key(k2) && m2[k2] == m[k2]);
                } else {
                    assert(m2[k1].0 < next <= m2[k2].0);
                }
            } else if !placed_anew(m, m2, k2) {
                assert(m.contains_key(k2) && m2[k2] == m[k2]);
                assert(m2[k2].0 < next <= m2[k1].0);
            }
        }
    }
}

} // verus!
