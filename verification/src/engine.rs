use vstd::prelude::*;

use crate::connectors::{
    can_link, compatible, holds_one_link, lemma_link_rule_compatible, link_rule, should_link, single_link,
    ConnKind,
};
use crate::link_order::{has_link, is_pair, lemma_added_links_touch, lemma_adding_links_pairwise};

verus! {

/// A link from one connector to a connector of another placement.
#[derive(Debug, Clone, Copy, PartialEq, Eq, Structural)]
pub struct ConnectedTo {
    pub placement_idx: usize,
    pub conn_idx: usize,
}

/// A row of `n` connectors with no links.
pub open spec fn empty_row(n: nat) -> Seq<Seq<ConnectedTo>> {
    Seq::new(n, |k: int| Seq::<ConnectedTo>::empty())
}

/// What the linking and candidate rules need to know of a part: the kinds of
/// its connectors, in order, and the number of symmetric orientations of each
/// of its axes of rotational symmetry (0 meaning every turn is symmetric).
#[derive(Debug)]
pub struct PartShape {
    pub connectors: Vec<ConnKind>,
    pub rot_sym_orientations: Vec<u8>,
}

/// The links of a model: `links[placement][connector]` lists the connectors
/// that the given connector is linked to.
pub type Links = Seq<Seq<Seq<ConnectedTo>>>;

pub open spec fn row_view(r: Vec<Vec<ConnectedTo>>) -> Seq<Seq<ConnectedTo>> {
    r@.map_values(|v: Vec<ConnectedTo>| v@)
}

pub open spec fn table_view(t: Vec<Vec<Vec<ConnectedTo>>>) -> Links {
    t@.map_values(|r: Vec<Vec<ConnectedTo>>| row_view(r))
}

pub open spec fn bool_grid_view(g: Vec<Vec<Vec<bool>>>) -> Seq<Seq<Seq<bool>>> {
    g@.map_values(|r: Vec<Vec<bool>>| r@.map_values(|v: Vec<bool>| v@))
}

/// A link `l` held by connector `k` of placement `i` is sound: it points at an
/// existing connector of another placement, that connector links back, and
/// the two kinds may be linked at all.
pub open spec fn link_ok(t: Links, kinds: Seq<Seq<ConnKind>>, i: int, k: int, l: ConnectedTo) -> bool {
    let p = l.placement_idx as int;
    let c = l.conn_idx as int;
    &&& 0 <= p < t.len()
    &&& p != i
    &&& 0 <= c < t[p].len()
    &&& t[p][c].contains(ConnectedTo { placement_idx: i as usize, conn_idx: k as usize })
    &&& compatible(kinds[i][k], kinds[p][c])
}

/// The invariant of a link table, where `kinds[i]` are the connector kinds of
/// placement `i`: one row per placement and one list per connector, every
/// link sound and mirrored, and snap and clip connectors linked at most once.
pub open spec fn links_wf(t: Links, kinds: Seq<Seq<ConnKind>>) -> bool {
    &&& t.len() == kinds.len()
    &&& forall|i: int| 0 <= i < t.len() ==> #[trigger] t[i].len() == kinds[i].len()
    &&& forall|i: int, k: int, j: int|
        0 <= i < t.len() && 0 <= k < t[i].len() && 0 <= j < t[i][k].len() ==> link_ok(
            t,
            kinds,
            i,
            k,
            #[trigger] t[i][k][j],
        )
    &&& forall|i: int, k: int|
        0 <= i < t.len() && 0 <= k < t[i].len() && single_link(kinds[i][k]) ==> #[trigger] t[i][k].len()
            <= 1
}

/// One step of linking a new placement `c`: connector `mc` of placement `m`
/// and connector `cc` of `c` are linked both ways if [`link_rule`] says so.
pub open spec fn link_step(
    t: Links,
    mk: ConnKind,
    ck: ConnKind,
    touching: bool,
    m: int,
    mc: int,
    c: int,
    cc: int,
) -> Links {
    if link_rule(mk, ck, touching, t[m][mc].len() == 0, t[c][cc].len() == 0) {
        let t1 = t.update(
            m,
            t[m].update(mc, t[m][mc].push(ConnectedTo { placement_idx: c as usize, conn_idx: cc as usize })),
        );
        t1.update(
            c,
            t1[c].update(cc, t1[c][cc].push(ConnectedTo { placement_idx: m as usize, conn_idx: mc as usize })),
        )
    } else {
        t
    }
}

/// A link step keeps the number of placements and of connectors.
pub proof fn lemma_link_step_shape(
    t: Links,
    mk: ConnKind,
    ck: ConnKind,
    touching: bool,
    m: int,
    mc: int,
    c: int,
    cc: int,
)
    requires
        0 <= m < t.len(),
        0 <= c < t.len(),
        0 <= mc < t[m].len(),
        0 <= cc < t[c].len(),
    ensures
        link_step(t, mk, ck, touching, m, mc, c, cc).len() == t.len(),
        forall|i: int|
            0 <= i < t.len() ==> #[trigger] link_step(t, mk, ck, touching, m, mc, c, cc)[i].len() == t[i].len(),
{
}

/// Adding a link by the rules keeps the table sound.
pub proof fn lemma_link_step_wf(
    t: Links,
    kinds: Seq<Seq<ConnKind>>,
    touching: bool,
    m: int,
    mc: int,
    c: int,
    cc: int,
)
    requires
        links_wf(t, kinds),
        0 <= m < t.len(),
        0 <= c < t.len(),
        m != c,
        0 <= mc < t[m].len(),
        0 <= cc < t[c].len(),
        m <= usize::MAX,
        mc <= usize::MAX,
        c <= usize::MAX,
        cc <= usize::MAX,
    ensures
        links_wf(link_step(t, kinds[m][mc], kinds[c][cc], touching, m, mc, c, cc), kinds),
{
    let mk = kinds[m][mc];
    let ck = kinds[c][cc];
    let t2 = link_step(t, mk, ck, touching, m, mc, c, cc);
    if link_rule(mk, ck, touching, t[m][mc].len() == 0, t[c][cc].len() == 0) {
        lemma_link_rule_compatible(mk, ck, touching, t[m][mc].len() == 0, t[c][cc].len() == 0);
        let lm = ConnectedTo { placement_idx: c as usize, conn_idx: cc as usize };
        let lc = ConnectedTo { placement_idx: m as usize, conn_idx: mc as usize };
        assert(t2[m][mc] == t[m][mc].push(lm));
        assert(t2[c][cc] == t[c][cc].push(lc));
        assert forall|i: int, k: int|
            0 <= i < t.len() && 0 <= k < t[i].len() && !(i == m && k == mc) && !(i == c && k == cc)
            implies #[trigger] t2[i][k] == t[i][k] by {}
        assert forall|i: int, k: int, j: int|
            0 <= i < t2.len() && 0 <= k < t2[i].len() && 0 <= j < t2[i][k].len() implies link_ok(
            t2,
            kinds,
            i,
            k,
            #[trigger] t2[i][k][j],
        ) by {
            let l = t2[i][k][j];
            if i == m && k == mc && j == t[m][mc].len() {
                assert(t2[c][cc].last() == lc);
                assert(t2[c][cc].contains(lc));
            } else if i == c && k == cc && j == t[c][cc].len() {
                assert(t2[m][mc].last() == lm);
                assert(t2[m][mc].contains(lm));
            } else {
                assert(l == t[i][k][j]);
                assert(link_ok(t, kinds, i, k, t[i][k][j]));
                let p = l.placement_idx as int;
                let q = l.conn_idx as int;
                let back = ConnectedTo { placement_idx: i as usize, conn_idx: k as usize };
                let w = choose|w: int| 0 <= w < t[p][q].len() && t[p][q][w] == back;
                assert(t2[p][q][w] == back);
            }
        }
        assert forall|i: int, k: int|
            0 <= i < t2.len() && 0 <= k < t2[i].len() && single_link(kinds[i][k]) implies #[trigger] t2[i][k].len()
            <= 1 by {
            if i == m && k == mc {
            } else if i == c && k == cc {
            } else {
                assert(t2[i][k] == t[i][k]);
            }
        }
    }
}


/// The connector kinds of part `p` among `parts`.
pub open spec fn part_kinds(parts: Seq<PartShape>, p: int) -> Seq<ConnKind> {
    parts[p].connectors@
}

/// The topology of an assembled model: the parts it is built from, the part
/// of each placement, and the links between the placements' connectors.
/// `connections[placement][connector]` lists what that connector is linked to.
#[derive(Debug)]
pub struct AssemblyGraph {
    pub parts: Vec<PartShape>,
    pub placement_parts: Vec<usize>,
    pub connections: Vec<Vec<Vec<ConnectedTo>>>,
}

impl AssemblyGraph {
    /// The connector kinds of each placement, in placement order.
    pub open spec fn placement_kinds(&self) -> Seq<Seq<ConnKind>> {
        Seq::new(
            self.placement_parts@.len(),
            |i: int| part_kinds(self.parts@, self.placement_parts@[i] as int),
        )
    }

    pub open spec fn links(&self) -> Links {
        table_view(self.connections)
    }

    /// Every placement names an existing part and the link table is sound.
    pub open spec fn wf(&self) -> bool {
        &&& forall|i: int|
            0 <= i < self.placement_parts@.len() ==> #[trigger] self.placement_parts@[i]
                < self.parts@.len()
        &&& links_wf(self.links(), self.placement_kinds())
    }

    /// The links after connector `mc` of placement `m` has been tried against
    /// the first `n` connectors of the new placement (of part `part`).
    pub open spec fn fold_conns(
        &self,
        part: int,
        touching: Seq<Seq<Seq<bool>>>,
        t: Links,
        m: int,
        mc: int,
        n: int,
    ) -> Links
        decreases n,
    {
        if n <= 0 {
            t
        } else {
            let t0 = self.fold_conns(part, touching, t, m, mc, n - 1);
            link_step(
                t0,
                self.placement_kinds()[m][mc],
                part_kinds(self.parts@, part)[n - 1],
                touching[m][mc][n - 1],
                m,
                mc,
                self.placement_parts@.len() as int,
                n - 1,
            )
        }
    }

    /// The links after the first `n` connectors of placement `m` have been
    /// tried against every connector of the new placement.
    pub open spec fn fold_anchor(
        &self,
        part: int,
        touching: Seq<Seq<Seq<bool>>>,
        t: Links,
        m: int,
        n: int,
    ) -> Links
        decreases n,
    {
        if n <= 0 {
            t
        } else {
            let t0 = self.fold_anchor(part, touching, t, m, n - 1);
            self.fold_conns(part, touching, t0, m, n - 1, part_kinds(self.parts@, part).len() as int)
        }
    }

    /// The links after the first `n` placements have been tried against the
    /// new placement.
    pub open spec fn fold_placements(
        &self,
        part: int,
        touching: Seq<Seq<Seq<bool>>>,
        t: Links,
        n: int,
    ) -> Links
        decreases n,
    {
        if n <= 0 {
            t
        } else {
            let t0 = self.fold_placements(part, touching, t, n - 1);
            self.fold_anchor(part, touching, t0, n - 1, self.placement_kinds()[n - 1].len() as int)
        }
    }

    /// The links once a placement of part `part` has been added: the new
    /// placement gets an empty list per connector, and then each connector of
    /// each earlier placement (in order) is tried against each connector of
    /// the new one (in order) by [`link_rule`], where `touching[m][mc][cc]` is
    /// the geometric verdict for connector `mc` of placement `m` and connector
    /// `cc` of the new placement. What this gives for each pair is stated
    /// directly in `link_order::lemma_adding_links_pairwise`.
    pub open spec fn links_after_adding(&self, part: int, touching: Seq<Seq<Seq<bool>>>) -> Links {
        self.fold_placements(
            part,
            touching,
            self.links().push(empty_row(part_kinds(self.parts@, part).len())),
            self.placement_parts@.len() as int,
        )
    }

    /// The shape that `add_placement` asks of its geometric verdicts.
    pub open spec fn touching_fits(&self, part: int, touching: Seq<Seq<Seq<bool>>>) -> bool {
        &&& touching.len() == self.placement_parts@.len()
        &&& forall|m: int|
            0 <= m < touching.len() ==> #[trigger] touching[m].len() == self.placement_kinds()[m].len()
        &&& forall|m: int, mc: int|
            0 <= m < touching.len() && 0 <= mc < touching[m].len() ==> #[trigger] touching[m][mc].len()
                == part_kinds(self.parts@, part).len()
    }

    /// Creates a graph with the given parts and no placements.
    pub fn new(parts: Vec<PartShape>) -> (res: Self)
        ensures
            res.wf(),
            res.parts@ == parts@,
            res.placement_parts@.len() == 0,
            res.links().len() == 0,
    {
        let res = AssemblyGraph { parts, placement_parts: Vec::new(), connections: Vec::new() };
        assert(res.links() =~= Seq::<Seq<Seq<ConnectedTo>>>::empty());
        res
    }

    /// Removes every placement and every link.
    pub fn clear(&mut self)
        ensures
            final(self).wf(),
            final(self).parts@ == old(self).parts@,
            final(self).placement_parts@.len() == 0,
            final(self).links().len() == 0,
    {
        self.placement_parts.clear();
        self.connections.clear();
        assert(self.links() =~= Seq::<Seq<Seq<ConnectedTo>>>::empty());
    }

    /// Adds a placement of part `part_index` and links its connectors to those
    /// of the earlier placements by [`link_rule`]. `touching[m][mc][cc]` is
    /// the geometric verdict for connector `mc` of placement `m` and connector
    /// `cc` of the new placement.
    pub fn add_placement(&mut self, part_index: usize, touching: &Vec<Vec<Vec<bool>>>)
        requires
            old(self).shaped(),
            part_index < old(self).parts@.len(),
            old(self).touching_fits(part_index as int, bool_grid_view(*touching)),
        ensures
            final(self).shaped(),
            old(self).wf() ==> final(self).wf(),
            final(self).parts@ == old(self).parts@,
            final(self).placement_parts@ == old(self).placement_parts@.push(part_index),
            final(self).links() == old(self).links_after_adding(
                part_index as int,
                bool_grid_view(*touching),
            ),
            grows(
                final(self).links(),
                old(self).links().push(empty_row(part_kinds(old(self).parts@, part_index as int).len())),
                old(self).placement_parts@.len() as int,
            ),
            forall|cc: int, j: int|
                0 <= cc < part_kinds(old(self).parts@, part_index as int).len()
                    && 0 <= j < final(self).links()[old(self).placement_parts@.len() as int][cc].len() ==> ({
                    let e = #[trigger] final(self).links()[old(self).placement_parts@.len() as int][cc][j];
                    &&& e.placement_idx < old(self).placement_parts@.len()
                    &&& e.conn_idx < old(self).placement_kinds()[e.placement_idx as int].len()
                    &&& touching@[e.placement_idx as int]@[e.conn_idx as int]@[cc]
                }),
    {
        proof {
            lemma_adding_only_appends(*old(self), part_index as int, bool_grid_view(*touching));
            lemma_new_links_touch(*old(self), part_index as int, bool_grid_view(*touching));
            let tv = bool_grid_view(*touching);
            assert forall|a: int, b: int, x: int|
                0 <= a < touching@.len() && 0 <= b < tv[a].len() && 0 <= x < tv[a][b].len() implies #[trigger] tv[a][b][x]
                    == touching@[a]@[b]@[x] by {
                assert(tv[a] == touching@[a]@.map_values(|v: Vec<bool>| v@));
            }
        }
        let ghost g0 = *self;
        let ghost tv = bool_grid_view(*touching);
        let ghost part = part_index as int;
        let c_idx = self.placement_parts.len();
        let n_c = self.parts[part_index].connectors.len();
        let mut row: Vec<Vec<ConnectedTo>> = Vec::new();
        for k in 0..n_c
            invariant
                row@.len() == k,
                forall|j: int| 0 <= j < k ==> (#[trigger] row@[j])@.len() == 0,
        {
            row.push(Vec::new());
        }
        let ghost row0 = empty_row(part_kinds(g0.parts@, part).len());
        self.placement_parts.push(part_index);
        self.connections.push(row);
        proof {
            assert forall|j: int| 0 <= j < row@.len() implies #[trigger] row_view(row)[j] == row0[j] by {
                assert(row@[j]@ =~= Seq::<ConnectedTo>::empty());
            }
            assert(row_view(row) =~= row0);
            assert(self.links() =~= g0.links().push(row0));
            assert(self.placement_kinds() =~= g0.placement_kinds().push(part_kinds(g0.parts@, part)));
            assert(self.links() == g0.fold_placements(part, tv, g0.links().push(row0), 0));
            assert(self.shaped());
            if g0.wf() {
                assert(self.wf());
            }
        }
        let ghost t_init = g0.links().push(row0);
        let ghost kinds = self.placement_kinds();
        for m in 0..c_idx
            invariant
                c_idx == g0.placement_parts@.len(),
                n_c == part_kinds(g0.parts@, part).len(),
                part == part_index as int,
                tv == bool_grid_view(*touching),
                g0.shaped(),
                g0.touching_fits(part, tv),
                part < g0.parts@.len(),
                self.parts@ == g0.parts@,
                self.placement_parts@ == g0.placement_parts@.push(part_index),
                kinds == self.placement_kinds(),
                kinds == g0.placement_kinds().push(part_kinds(g0.parts@, part)),
                self.shaped(),
                    g0.wf() ==> self.wf(),
                self.links() == g0.fold_placements(part, tv, t_init, m as int),
        {
            let ghost t_m = self.links();
            let m_part = self.placement_parts[m];
            let n_m = self.parts[m_part].connectors.len();
            assert(n_m == g0.placement_kinds()[m as int].len());
            for mc in 0..n_m
                invariant
                    c_idx == g0.placement_parts@.len(),
                    n_c == part_kinds(g0.parts@, part).len(),
                    part == part_index as int,
                    tv == bool_grid_view(*touching),
                    g0.shaped(),
                    g0.touching_fits(part, tv),
                    part < g0.parts@.len(),
                    m < c_idx,
                    m_part == self.placement_parts@[m as int],
                    n_m == g0.placement_kinds()[m as int].len(),
                    self.parts@ == g0.parts@,
                    self.placement_parts@ == g0.placement_parts@.push(part_index),
                    kinds == self.placement_kinds(),
                    kinds == g0.placement_kinds().push(part_kinds(g0.parts@, part)),
                    self.shaped(),
                    g0.wf() ==> self.wf(),
                    self.links() == g0.fold_anchor(part, tv, t_m, m as int, mc as int),
            {
                let ghost t_mc = self.links();
                let mk = self.parts[m_part].connectors[mc];
                assert(mk == kinds[m as int][mc as int]);
                for cc in 0..n_c
                    invariant
                        c_idx == g0.placement_parts@.len(),
                        n_c == part_kinds(g0.parts@, part).len(),
                        part == part_index as int,
                        tv == bool_grid_view(*touching),
                        g0.shaped(),
                        g0.touching_fits(part, tv),
                        part < g0.parts@.len(),
                        m < c_idx,
                        mc < n_m,
                        m_part == self.placement_parts@[m as int],
                        n_m == g0.placement_kinds()[m as int].len(),
                        mk == kinds[m as int][mc as int],
                        self.parts@ == g0.parts@,
                        self.placement_parts@ == g0.placement_parts@.push(part_index),
                        kinds == self.placement_kinds(),
                        kinds == g0.placement_kinds().push(part_kinds(g0.parts@, part)),
                        self.shaped(),
                    g0.wf() ==> self.wf(),
                        self.links() == g0.fold_conns(part, tv, t_mc, m as int, mc as int, cc as int),
                {
                    let ghost t0 = self.links();
                    let ck = self.parts[part_index].connectors[cc];
                    assert(tv[m as int] == touching@[m as int]@.map_values(|v: Vec<bool>| v@));
                    assert(tv[m as int][mc as int] == touching@[m as int]@[mc as int]@);
                    let touch = touching[m][mc][cc];
                    assert(t0[m as int] == row_view(self.connections@[m as int]));
                    assert(t0[c_idx as int] == row_view(self.connections@[c_idx as int]));
                    assert(t0[m as int].len() == kinds[m as int].len());
                    assert(t0[m as int][mc as int] == self.connections@[m as int]@[mc as int]@);
                    assert(t0[c_idx as int][cc as int] == self.connections@[c_idx as int]@[cc as int]@);
                    let m_free = self.connections[m][mc].len() == 0;
                    let c_free = self.connections[c_idx][cc].len() == 0;
                    proof {
                        lemma_link_step_shape(t0, mk, ck, touch, m as int, mc as int, c_idx as int, cc as int);
                        if g0.wf() {
                            lemma_link_step_wf(t0, kinds, touch, m as int, mc as int, c_idx as int, cc as int);
                        }
                    }
                    if should_link(mk, ck, touch, m_free, c_free) {
                        let ghost v0 = self.connections;
                        let lm = ConnectedTo { placement_idx: c_idx, conn_idx: cc };
                        self.connections[m][mc].push(lm);
                        proof {
                            lemma_table_push(v0, self.connections, m as int, mc as int, lm);
                        }
                        let ghost v1 = self.connections;
                        let lc = ConnectedTo { placement_idx: m, conn_idx: mc };
                        self.connections[c_idx][cc].push(lc);
                        proof {
                            lemma_table_push(v1, self.connections, c_idx as int, cc as int, lc);
                        }
                    }
                    assert(self.links() == link_step(t0, mk, ck, touch, m as int, mc as int, c_idx as int, cc as int));
                }
            }
        }
    }

    /// Returns the edges between linked placements. Each edge stands for
    /// both directions and appears once: `(0, 1)` also stands for `(1, 0)`,
    /// which then does not appear. The order of the edges is not specified.
    pub fn get_conn_edges(&self) -> (res: Vec<(usize, usize)>)
        requires
            self.placement_parts@.len() <= self.connections@.len(),
        ensures
            pairs_distinct(res@),
            forall|i: int|
                0 <= i < res@.len() ==> (#[trigger] res@[i]).0 < self.placement_parts@.len()
                    && linked(self.links(), res@[i].0 as int, res@[i].1 as int),
            forall|a: int, b: int|
                0 <= a < self.placement_parts@.len() && #[trigger] linked(self.links(), a, b) ==> has_pair(
                    res@,
                    a as usize,
                    b as usize,
                ),
            self.wf() ==> forall|i: int|
                0 <= i < res@.len() ==> (#[trigger] res@[i]).0 < res@[i].1 && res@[i].1
                    < self.placement_parts@.len() && linked(self.links(), res@[i].1 as int, res@[i].0 as int),
    {
        let ghost t = self.links();
        let n = self.placement_parts.len();
        let mut edges: Vec<(usize, usize)> = Vec::new();
        for a in 0..n
            invariant
                n == self.placement_parts@.len(),
                t == self.links(),
                n <= self.connections@.len(),
                pairs_distinct(edges@),
                self.wf() ==> forall|i: int| 0 <= i < edges@.len() ==> (#[trigger] edges@[i]).0 < edges@[i].1,
                forall|i: int|
                    0 <= i < edges@.len() ==> (#[trigger] edges@[i]).0 < n && linked(
                        t,
                        edges@[i].0 as int,
                        edges@[i].1 as int,
                    ),
                forall|x: int, k: int, j: int|
                    0 <= x < a && 0 <= k < t[x].len() && 0 <= j < t[x][k].len() ==> has_pair(
                        edges@,
                        x as usize,
                        #[trigger] t[x][k][j].placement_idx,
                    ),
        {
            assert(t[a as int] == row_view(self.connections@[a as int]));
            let n_k = self.connections[a].len();
            for k in 0..n_k
                invariant
                    n == self.placement_parts@.len(),
                    a < n,
                    t == self.links(),
                    n_k == t[a as int].len(),
                    n <= self.connections@.len(),
                    pairs_distinct(edges@),
                self.wf() ==> forall|i: int| 0 <= i < edges@.len() ==> (#[trigger] edges@[i]).0 < edges@[i].1,
                    forall|i: int|
                        0 <= i < edges@.len() ==> (#[trigger] edges@[i]).0 < n && linked(
                            t,
                            edges@[i].0 as int,
                            edges@[i].1 as int,
                        ),
                    forall|x: int, kk: int, j: int|
                        ((0 <= x < a && 0 <= kk < t[x].len()) || (x == a && 0 <= kk < k)) && 0 <= j
                            < t[x][kk].len() ==> has_pair(
                            edges@,
                            x as usize,
                            #[trigger] t[x][kk][j].placement_idx,
                        ),
            {
                assert(t[a as int][k as int] == self.connections@[a as int]@[k as int]@);
                let n_j = self.connections[a][k].len();
                for j in 0..n_j
                    invariant
                        n == self.placement_parts@.len(),
                        a < n,
                        k < n_k,
                        t == self.links(),
                        n_k == t[a as int].len(),
                        n_j == t[a as int][k as int].len(),
                        n <= self.connections@.len(),
                        pairs_distinct(edges@),
                self.wf() ==> forall|i: int| 0 <= i < edges@.len() ==> (#[trigger] edges@[i]).0 < edges@[i].1,
                        forall|i: int|
                            0 <= i < edges@.len() ==> (#[trigger] edges@[i]).0 < n && linked(
                                t,
                                edges@[i].0 as int,
                                edges@[i].1 as int,
                            ),
                        forall|x: int, kk: int, jj: int|
                            ((0 <= x < a && 0 <= kk < t[x].len()) || (x == a && 0 <= kk < k) || (x
                                == a && kk == k && jj < j)) && 0 <= jj < t[x][kk].len() ==> has_pair(
                                edges@,
                                x as usize,
                                #[trigger] t[x][kk][jj].placement_idx,
                            ),
                {
                    assert(t[a as int][k as int][j as int] == self.connections@[a as int]@[k as int]@[j as int]);
                    let b = self.connections[a][k][j].placement_idx;
                    assert(linked(t, a as int, b as int));
                    if !contains_pair(&edges, a, b) && !contains_pair(&edges, b, a) {
                        let ghost old_edges = edges@;
                        proof {
                            if self.wf() {
                                lemma_linked_symmetric(t, self.placement_kinds(), a as int, b as int);
                                if (b as int) < (a as int) {
                                    let (kk, jj) = choose|kk: int, jj: int|
                                        0 <= kk < t[b as int].len() && 0 <= jj < t[b as int][kk].len()
                                            && #[trigger] t[b as int][kk][jj].placement_idx == a;
                                    assert(has_pair(old_edges, b, t[b as int][kk][jj].placement_idx));
                                }
                            }
                        }
                        edges.push((a, b));
                        assert forall|i: int, i2: int| 0 <= i < i2 < edges@.len() implies #[trigger] edges@[i]
                            != #[trigger] edges@[i2] && edges@[i] != (edges@[i2].1, edges@[i2].0) by {
                            if i2 == old_edges.len() {
                                assert(old_edges[i] == edges@[i]);
                                if edges@[i] == (a, b) {
                                    assert(old_edges.contains((a, b)));
                                }
                                if edges@[i] == (b, a) {
                                    assert(old_edges.contains((b, a)));
                                }
                            }
                        }
                        assert forall|x: int, kk: int, jj: int|
                            ((0 <= x < a && 0 <= kk < t[x].len()) || (x == a && 0 <= kk < k) || (x
                                == a && kk == k && jj < j + 1)) && 0 <= jj < t[x][kk].len() implies has_pair(
                                edges@,
                                x as usize,
                                #[trigger] t[x][kk][jj].placement_idx,
                            ) by {
                            if x == a && kk == k && jj == j {
                                assert(edges@[old_edges.len() as int] == (a, b));
                            } else {
                                let y = t[x][kk][jj].placement_idx;
                                if old_edges.contains((x as usize, y)) {
                                    let w = choose|w: int| 0 <= w < old_edges.len() && old_edges[w] == (x as usize, y);
                                    assert(edges@[w] == (x as usize, y));
                                } else {
                                    let w = choose|w: int| 0 <= w < old_edges.len() && old_edges[w] == (y, x as usize);
                                    assert(edges@[w] == (y, x as usize));
                                }
                            }
                        }
                    }
                }
            }
        }
        assert forall|i: int| self.wf() && 0 <= i < edges@.len() implies (#[trigger] edges@[i]).0 < edges@[i].1
            && edges@[i].1 < n && linked(t, edges@[i].1 as int, edges@[i].0 as int) by {
            if self.wf() {
                lemma_linked_symmetric(t, self.placement_kinds(), edges@[i].0 as int, edges@[i].1 as int);
            }
        }
        edges
    }

    /// The open connectors of the model, placement by placement and
    /// connector by connector: every bar, and every snap or clip connector
    /// that holds no link yet.
    pub fn open_connectors(&self) -> (res: Vec<ConnectedTo>)
        requires
            self.shaped(),
        ensures
            res@ == open_upto(self.links(), self.placement_kinds(), self.placement_parts@.len() as int),
            forall|i: int|
                0 <= i < res@.len() ==> (#[trigger] res@[i]).placement_idx < self.placement_parts@.len()
                    && res@[i].conn_idx < self.placement_kinds()[res@[i].placement_idx as int].len(),
            forall|i: usize, k: usize|
                i < self.placement_parts@.len() && k < self.placement_kinds()[i as int].len() ==> #[trigger] res@.contains(
                    ConnectedTo { placement_idx: i, conn_idx: k },
                ) == (self.placement_kinds()[i as int][k as int] is BarConn || self.links()[i as int][k as int].len() == 0),
    {
        proof {
            lemma_open_connectors_members(*self);
        }
        let ghost t = self.links();
        let ghost kinds = self.placement_kinds();
        let n = self.placement_parts.len();
        let mut res: Vec<ConnectedTo> = Vec::new();
        for i in 0..n
            invariant
                n == self.placement_parts@.len(),
                t == self.links(),
                kinds == self.placement_kinds(),
                self.shaped(),
                res@ == open_upto(t, kinds, i as int),
                forall|x: int|
                    0 <= x < res@.len() ==> (#[trigger] res@[x]).placement_idx < i
                        && res@[x].conn_idx < kinds[res@[x].placement_idx as int].len(),
        {
            let ghost before = res@;
            let p = self.placement_parts[i];
            let n_k = self.parts[p].connectors.len();
            assert(n_k == kinds[i as int].len());
            assert(t[i as int] == row_view(self.connections@[i as int]));
            assert(self.links()[i as int].len() == kinds[i as int].len());
            for k in 0..n_k
                invariant
                    t[i as int].len() == n_k,
                    n == self.placement_parts@.len(),
                    i < n,
                    p == self.placement_parts@[i as int],
                    n_k == kinds[i as int].len(),
                    t == self.links(),
                    kinds == self.placement_kinds(),
                    self.shaped(),
                    t[i as int] == row_view(self.connections@[i as int]),
                    res@ == before + open_in_row(t, kinds, i as int, k as int),
                    forall|x: int|
                        0 <= x < res@.len() ==> (#[trigger] res@[x]).placement_idx <= i
                            && res@[x].conn_idx < kinds[res@[x].placement_idx as int].len()
                            && (res@[x].placement_idx == i ==> res@[x].conn_idx < k),
            {
                let kind = self.parts[p].connectors[k];
                assert(kind == kinds[i as int][k as int]);
                assert(t[i as int][k as int] == self.connections@[i as int]@[k as int]@);
                assert(t.len() == self.connections@.len());
                assert(t[i as int].len() == self.connections@[i as int]@.len());
                let bar = match kind {
                    ConnKind::BarConn { .. } => true,
                    _ => false,
                };
                if bar || self.connections[i][k].len() == 0 {
                    res.push(ConnectedTo { placement_idx: i, conn_idx: k });
                }
                assert(res@ =~= before + open_in_row(t, kinds, i as int, k + 1));
            }
        }
        res
    }

    /// The part that the open connectors of the model make up: their kinds in
    /// the order of `open`, and no rotational symmetry.
    pub fn open_connectors_shape(&self, open: &Vec<ConnectedTo>) -> (res: PartShape)
        requires
            self.shaped(),
            forall|i: int|
                0 <= i < open@.len() ==> (#[trigger] open@[i]).placement_idx < self.placement_parts@.len()
                    && open@[i].conn_idx < self.placement_kinds()[open@[i].placement_idx as int].len(),
        ensures
            res.connectors@.len() == open@.len(),
            forall|i: int|
                0 <= i < open@.len() ==> #[trigger] res.connectors@[i] == self.placement_kinds()[open@[i].placement_idx as int][open@[i].conn_idx as int],
            res.rot_sym_orientations@.len() == 0,
    {
        let mut kinds: Vec<ConnKind> = Vec::new();
        for i in 0..open.len()
            invariant
                self.shaped(),
                kinds@.len() == i,
                forall|i: int|
                    0 <= i < open@.len() ==> (#[trigger] open@[i]).placement_idx < self.placement_parts@.len()
                        && open@[i].conn_idx < self.placement_kinds()[open@[i].placement_idx as int].len(),
                forall|j: int|
                    0 <= j < i ==> #[trigger] kinds@[j] == self.placement_kinds()[open@[j].placement_idx as int][open@[j].conn_idx as int],
        {
            let o = open[i];
            let p = self.placement_parts[o.placement_idx];
            kinds.push(self.parts[p].connectors[o.conn_idx]);
        }
        PartShape { connectors: kinds, rot_sym_orientations: Vec::new() }
    }

    /// Adds a part that no placement uses yet; returns its index.
    pub fn add_part(&mut self, shape: PartShape) -> (idx: usize)
        ensures
            old(self).shaped() ==> final(self).shaped(),
            old(self).wf() ==> final(self).wf(),
            idx == old(self).parts@.len(),
            final(self).parts@ == old(self).parts@.push(shape),
            final(self).placement_parts@ == old(self).placement_parts@,
            final(self).links() == old(self).links(),
            old(self).shaped() ==> final(self).placement_kinds() == old(self).placement_kinds(),
    {
        let idx = self.parts.len();
        self.parts.push(shape);
        proof {
            if old(self).shaped() {
                assert(self.placement_kinds() =~= old(self).placement_kinds());
            }
        }
        idx
    }

    /// Removes the last part, which no placement may use.
    pub fn remove_last_part(&mut self) -> (shape: PartShape)
        requires
            old(self).parts@.len() > 0,
            forall|i: int|
                0 <= i < old(self).placement_parts@.len() ==> #[trigger] old(self).placement_parts@[i] + 1
                    < old(self).parts@.len(),
        ensures
            old(self).shaped() ==> final(self).shaped(),
            old(self).wf() ==> final(self).wf(),
            shape == old(self).parts@.last(),
            final(self).parts@ == old(self).parts@.drop_last(),
            final(self).placement_parts@ == old(self).placement_parts@,
            final(self).links() == old(self).links(),
            final(self).placement_kinds() == old(self).placement_kinds(),
    {
        let shape = self.parts.pop().unwrap();
        assert(self.placement_kinds() =~= old(self).placement_kinds());
        shape
    }

    /// Replaces the placements by those of another model, given by their part
    /// indices; the links are left as they are.
    pub fn load_model(&mut self, placement_parts: &Vec<usize>)
        ensures
            final(self).parts@ == old(self).parts@,
            final(self).placement_parts@ == placement_parts@,
            final(self).connections == old(self).connections,
    {
        self.placement_parts = copy_indices(placement_parts);
    }

    /// Takes a snapshot of the placements and links.
    pub fn get_state(&self) -> (res: GraphState)
        ensures
            res.placement_parts@ == self.placement_parts@,
            table_view(res.connections) == self.links(),
    {
        GraphState {
            placement_parts: copy_indices(&self.placement_parts),
            connections: copy_table(&self.connections),
        }
    }

    /// Restores the placements and links of a snapshot.
    pub fn load_state(&mut self, state: &GraphState)
        ensures
            final(self).parts@ == old(self).parts@,
            final(self).placement_parts@ == state.placement_parts@,
            final(self).links() == table_view(state.connections),
    {
        self.placement_parts = copy_indices(&state.placement_parts);
        self.connections = copy_table(&state.connections);
    }

    /// The shape facts that the link checks below rely on.
    pub open spec fn shaped(&self) -> bool {
        &&& forall|i: int|
            0 <= i < self.placement_parts@.len() ==> #[trigger] self.placement_parts@[i]
                < self.parts@.len()
        &&& self.links().len() == self.placement_kinds().len()
        &&& forall|i: int| 0 <= i < self.links().len() ==> #[trigger] self.links()[i].len() == self.placement_kinds()[i].len()
    }

    /// Whether connector `k` of placement `i` holds sound links only, and no
    /// more than it may hold.
    fn connector_sound(&self, i: usize, k: usize) -> (res: bool)
        requires
            self.shaped(),
            i < self.placement_parts@.len(),
            k < self.placement_kinds()[i as int].len(),
        ensures
            res == ((forall|j: int|
                0 <= j < self.links()[i as int][k as int].len() ==> link_ok(
                    self.links(),
                    self.placement_kinds(),
                    i as int,
                    k as int,
                    #[trigger] self.links()[i as int][k as int][j],
                )) && (single_link(self.placement_kinds()[i as int][k as int]) ==> self.links()[i as int][k as int].len() <= 1)),
    {
        let ghost t = self.links();
        let ghost kinds = self.placement_kinds();
        let n = self.placement_parts.len();
        let kind = self.parts[self.placement_parts[i]].connectors[k];
        assert(kind == kinds[i as int][k as int]);
        assert(kinds.len() == n);
        assert(t.len() == n);
        assert(t.len() == self.connections@.len());
        assert(t[i as int] == row_view(self.connections@[i as int]));
        assert(t[i as int].len() == kinds[i as int].len());
        assert(t[i as int].len() == self.connections@[i as int]@.len());
        assert(t[i as int][k as int] == self.connections@[i as int]@[k as int]@);
        let len = self.connections[i][k].len();
        if holds_one_link(kind) && len > 1 {
            return false;
        }
        for j in 0..len
            invariant
                self.shaped(),
                t == self.links(),
                kinds == self.placement_kinds(),
                n == self.placement_parts@.len(),
                i < n,
                k < kinds[i as int].len(),
                kind == kinds[i as int][k as int],
                t[i as int][k as int] == self.connections@[i as int]@[k as int]@,
                t.len() == self.connections@.len(),
                i < self.connections@.len(),
                k < self.connections@[i as int]@.len(),
                len == t[i as int][k as int].len(),
                forall|jj: int| 0 <= jj < j ==> link_ok(t, kinds, i as int, k as int, #[trigger] t[i as int][k as int][jj]),
        {
            let l = self.connections[i][k][j];
            let p = l.placement_idx;
            let c = l.conn_idx;
            if p >= n || p == i {
                return false;
            }
            assert(t[p as int] == row_view(self.connections@[p as int]));
            if c >= self.connections[p].len() {
                return false;
            }
            assert(t[p as int][c as int] == self.connections@[p as int]@[c as int]@);
            let back = ConnectedTo { placement_idx: i, conn_idx: k };
            if !contains_link(&self.connections[p][c], back) {
                return false;
            }
            let other = self.parts[self.placement_parts[p]].connectors[c];
            assert(other == kinds[p as int][c as int]);
            if !can_link(kind, other) {
                return false;
            }
        }
        true
    }

    /// Whether every placement names an existing part and the link table has
    /// a list per placement and connector (see [`AssemblyGraph::shaped`]).
    pub fn is_shaped(&self) -> (res: bool)
        ensures
            res == self.shaped(),
    {
        let ghost t = self.links();
        let ghost kinds = self.placement_kinds();
        let n = self.placement_parts.len();
        for i in 0..n
            invariant
                n == self.placement_parts@.len(),
                forall|x: int| 0 <= x < i ==> #[trigger] self.placement_parts@[x] < self.parts@.len(),
        {
            if self.placement_parts[i] >= self.parts.len() {
                return false;
            }
        }
        if self.connections.len() != n {
            return false;
        }
        for i in 0..n
            invariant
                n == self.placement_parts@.len(),
                t == self.links(),
                kinds == self.placement_kinds(),
                t.len() == n,
                forall|x: int| 0 <= x < n ==> #[trigger] self.placement_parts@[x] < self.parts@.len(),
                forall|x: int| 0 <= x < i ==> #[trigger] t[x].len() == kinds[x].len(),
        {
            assert(t[i as int] == row_view(self.connections@[i as int]));
            if self.connections[i].len() != self.parts[self.placement_parts[i]].connectors.len() {
                assert(t[i as int].len() != kinds[i as int].len());
                return false;
            }
        }
        true
    }

    /// Whether the graph is sound (see [`AssemblyGraph::wf`]).
    pub fn is_sound(&self) -> (res: bool)
        ensures
            res == self.wf(),
    {
        let ghost t = self.links();
        let ghost kinds = self.placement_kinds();
        let n = self.placement_parts.len();
        if !self.is_shaped() {
            return false;
        }
        for i in 0..n
            invariant
                n == self.placement_parts@.len(),
                t == self.links(),
                kinds == self.placement_kinds(),
                self.shaped(),
                forall|x: int, kk: int, j: int|
                    0 <= x < i && 0 <= kk < t[x].len() && 0 <= j < t[x][kk].len() ==> link_ok(
                        t,
                        kinds,
                        x,
                        kk,
                        #[trigger] t[x][kk][j],
                    ),
                forall|x: int, kk: int|
                    0 <= x < i && 0 <= kk < t[x].len() && single_link(kinds[x][kk]) ==> #[trigger] t[x][kk].len()
                        <= 1,
        {
            assert(t[i as int] == row_view(self.connections@[i as int]));
            let n_k = self.connections[i].len();
            for k in 0..n_k
                invariant
                    n == self.placement_parts@.len(),
                    i < n,
                    t == self.links(),
                    kinds == self.placement_kinds(),
                    self.shaped(),
                    n_k == t[i as int].len(),
                    forall|x: int, kk: int, j: int|
                        ((0 <= x < i && 0 <= kk < t[x].len()) || (x == i && 0 <= kk < k)) && 0 <= j < t[x][kk].len()
                            ==> link_ok(t, kinds, x, kk, #[trigger] t[x][kk][j]),
                    forall|x: int, kk: int|
                        ((0 <= x < i && 0 <= kk < t[x].len()) || (x == i && 0 <= kk < k)) && single_link(kinds[x][kk])
                            ==> #[trigger] t[x][kk].len() <= 1,
            {
                if !self.connector_sound(i, k) {
                    return false;
                }
            }
        }
        true
    }

    /// Whether `touching` has the shape that `add_placement` asks for a new
    /// placement of part `part_index` (see [`AssemblyGraph::touching_fits`]).
    pub fn touching_shape_ok(&self, part_index: usize, touching: &Vec<Vec<Vec<bool>>>) -> (res: bool)
        requires
            self.shaped(),
            part_index < self.parts@.len(),
        ensures
            res == self.touching_fits(part_index as int, bool_grid_view(*touching)),
    {
        let ghost tv = bool_grid_view(*touching);
        let ghost kinds = self.placement_kinds();
        let n = self.placement_parts.len();
        let n_c = self.parts[part_index].connectors.len();
        if touching.len() != n {
            return false;
        }
        for m in 0..n
            invariant
                self.shaped(),
                part_index < self.parts@.len(),
                n == self.placement_parts@.len(),
                n_c == part_kinds(self.parts@, part_index as int).len(),
                tv == bool_grid_view(*touching),
                kinds == self.placement_kinds(),
                touching@.len() == n,
                forall|x: int| 0 <= x < m ==> #[trigger] tv[x].len() == kinds[x].len(),
                forall|x: int, y: int|
                    0 <= x < m && 0 <= y < tv[x].len() ==> #[trigger] tv[x][y].len() == n_c,
        {
            assert(tv[m as int] == touching@[m as int]@.map_values(|v: Vec<bool>| v@));
            let n_m = self.parts[self.placement_parts[m]].connectors.len();
            assert(n_m == kinds[m as int].len());
            if touching[m].len() != n_m {
                return false;
            }
            for mc in 0..n_m
                invariant
                    self.shaped(),
                    part_index < self.parts@.len(),
                    n == self.placement_parts@.len(),
                    m < n,
                    n_c == part_kinds(self.parts@, part_index as int).len(),
                    tv == bool_grid_view(*touching),
                    kinds == self.placement_kinds(),
                    touching@.len() == n,
                    n_m == kinds[m as int].len(),
                    touching@[m as int]@.len() == n_m,
                    tv[m as int] == touching@[m as int]@.map_values(|v: Vec<bool>| v@),
                    forall|x: int| 0 <= x < m ==> #[trigger] tv[x].len() == kinds[x].len(),
                    forall|x: int, y: int|
                        ((0 <= x < m && 0 <= y < tv[x].len()) || (x == m && 0 <= y < mc)) ==> #[trigger] tv[x][y].len()
                            == n_c,
            {
                assert(tv[m as int][mc as int] == touching@[m as int]@[mc as int]@);
                if touching[m][mc].len() != n_c {
                    return false;
                }
            }
        }
        true
    }
}


/// Pushing `x` onto the list of connector `k` of placement `i` changes the
/// viewed table in exactly that list.
pub proof fn lemma_table_push(
    t0: Vec<Vec<Vec<ConnectedTo>>>,
    t1: Vec<Vec<Vec<ConnectedTo>>>,
    i: int,
    k: int,
    x: ConnectedTo,
)
    requires
        0 <= i < t0@.len(),
        0 <= k < t0@[i]@.len(),
        t1@.len() == t0@.len(),
        forall|j: int| 0 <= j < t0@.len() && j != i ==> t1@[j] == t0@[j],
        t1@[i]@.len() == t0@[i]@.len(),
        forall|j: int| 0 <= j < t0@[i]@.len() && j != k ==> t1@[i]@[j] == t0@[i]@[j],
        t1@[i]@[k]@ == t0@[i]@[k]@.push(x),
    ensures
        table_view(t1) == table_view(t0).update(
            i,
            table_view(t0)[i].update(k, table_view(t0)[i][k].push(x)),
        ),
{
    let v0 = table_view(t0);
    let goal = v0.update(i, v0[i].update(k, v0[i][k].push(x)));
    assert(row_view(t1@[i]) =~= v0[i].update(k, v0[i][k].push(x)));
    assert(table_view(t1) =~= goal);
}


/// Placement `a` holds a link to placement `b`.
pub open spec fn linked(t: Links, a: int, b: int) -> bool {
    exists|k: int, j: int|
        0 <= k < t[a].len() && 0 <= j < t[a][k].len() && #[trigger] t[a][k][j].placement_idx == b
}

/// The edge list `e` names the pair `{a, b}` in one direction or the other.
pub open spec fn has_pair(e: Seq<(usize, usize)>, a: usize, b: usize) -> bool {
    e.contains((a, b)) || e.contains((b, a))
}

/// No pair appears twice in `e`, in the same or in the opposite direction.
pub open spec fn pairs_distinct(e: Seq<(usize, usize)>) -> bool {
    forall|i: int, j: int|
        0 <= i < j < e.len() ==> #[trigger] e[i] != #[trigger] e[j] && e[i] != (e[j].1, e[j].0)
}

/// In a sound table, links between placements go both ways.
pub proof fn lemma_linked_symmetric(t: Links, kinds: Seq<Seq<ConnKind>>, a: int, b: int)
    requires
        links_wf(t, kinds),
        0 <= a < t.len(),
        linked(t, a, b),
        a <= usize::MAX,
    ensures
        0 <= b < t.len(),
        a != b,
        linked(t, b, a),
{
    let (k, j) = choose|k: int, j: int|
        0 <= k < t[a].len() && 0 <= j < t[a][k].len() && #[trigger] t[a][k][j].placement_idx == b;
    let l = t[a][k][j];
    assert(link_ok(t, kinds, a, k, l));
    let c = l.conn_idx as int;
    let back = ConnectedTo { placement_idx: a as usize, conn_idx: k as usize };
    let w = choose|w: int| 0 <= w < t[b][c].len() && t[b][c][w] == back;
    assert(t[b][c][w].placement_idx == a);
}

/// Whether the pair `(a, b)` is in `edges`.
fn contains_pair(edges: &Vec<(usize, usize)>, a: usize, b: usize) -> (res: bool)
    ensures
        res == edges@.contains((a, b)),
{
    let mut i: usize = 0;
    while i < edges.len()
        invariant
            0 <= i <= edges@.len(),
            forall|j: int| 0 <= j < i ==> edges@[j] != (a, b),
        decreases edges@.len() - i,
    {
        if edges[i].0 == a && edges[i].1 == b {
            assert(edges@[i as int] == (a, b));
            return true;
        }
        i += 1;
    }
    false
}

/// A snapshot of a graph's placements and links, to be loaded back later.
#[derive(Debug, Clone)]
pub struct GraphState {
    pub placement_parts: Vec<usize>,
    pub connections: Vec<Vec<Vec<ConnectedTo>>>,
}

/// A copy of a link list.
fn copy_links(v: &Vec<ConnectedTo>) -> (res: Vec<ConnectedTo>)
    ensures
        res@ == v@,
{
    let mut res = Vec::new();
    for i in 0..v.len()
        invariant
            res@ == v@.take(i as int),
    {
        res.push(v[i]);
        assert(v@.take(i + 1) =~= v@.take(i as int).push(v@[i as int]));
    }
    assert(v@.take(v@.len() as int) =~= v@);
    res
}

/// A copy of a whole link table.
fn copy_table(t: &Vec<Vec<Vec<ConnectedTo>>>) -> (res: Vec<Vec<Vec<ConnectedTo>>>)
    ensures
        table_view(res) == table_view(*t),
{
    let mut res: Vec<Vec<Vec<ConnectedTo>>> = Vec::new();
    for i in 0..t.len()
        invariant
            res@.len() == i,
            i <= t@.len(),
            forall|j: int| 0 <= j < i ==> #[trigger] row_view(res@[j]) == row_view(t@[j]),
    {
        let mut row: Vec<Vec<ConnectedTo>> = Vec::new();
        let n_k = t[i].len();
        for k in 0..n_k
            invariant
                i < t@.len(),
                n_k == t@[i as int]@.len(),
                row@.len() == k,
                k <= t@[i as int]@.len(),
                forall|j: int| 0 <= j < k ==> (#[trigger] row@[j])@ == t@[i as int]@[j]@,
        {
            row.push(copy_links(&t[i][k]));
        }
        assert(row_view(row) =~= row_view(t@[i as int]));
        res.push(row);
    }
    assert(table_view(res) =~= table_view(*t));
    res
}

/// A copy of a list of part indices.
fn copy_indices(v: &Vec<usize>) -> (res: Vec<usize>)
    ensures
        res@ == v@,
{
    let mut res = Vec::new();
    for i in 0..v.len()
        invariant
            res@ == v@.take(i as int),
    {
        res.push(v[i]);
        assert(v@.take(i + 1) =~= v@.take(i as int).push(v@[i as int]));
    }
    assert(v@.take(v@.len() as int) =~= v@);
    res
}

/// Connector `k` of placement `i` is still free to take part in a new link:
/// a bar always is, a snap or clip connector only while it holds no link.
pub open spec fn open_connector(t: Links, kinds: Seq<Seq<ConnKind>>, i: int, k: int) -> bool {
    !single_link(kinds[i][k]) || t[i][k].len() == 0
}

/// The open connectors among the first `n` connectors of placement `i`, in order.
pub open spec fn open_in_row(t: Links, kinds: Seq<Seq<ConnKind>>, i: int, n: int) -> Seq<ConnectedTo>
    decreases n,
{
    if n <= 0 {
        Seq::empty()
    } else {
        let prefix = open_in_row(t, kinds, i, n - 1);
        if open_connector(t, kinds, i, n - 1) {
            prefix.push(ConnectedTo { placement_idx: i as usize, conn_idx: (n - 1) as usize })
        } else {
            prefix
        }
    }
}

/// The open connectors of the first `n` placements, in order.
pub open spec fn open_upto(t: Links, kinds: Seq<Seq<ConnKind>>, n: int) -> Seq<ConnectedTo>
    decreases n,
{
    if n <= 0 {
        Seq::empty()
    } else {
        open_upto(t, kinds, n - 1) + open_in_row(t, kinds, n - 1, kinds[n - 1].len() as int)
    }
}


/// The open connectors among the first `n` of placement `i` are those of
/// placement `i` below `n` that [`open_connector`] admits.
proof fn lemma_open_in_row_members(t: Links, kinds: Seq<Seq<ConnKind>>, i: usize, n: int)
    requires
        0 <= n <= usize::MAX + 1,
    ensures
        forall|j: int|
            0 <= j < open_in_row(t, kinds, i as int, n).len() ==> (#[trigger] open_in_row(t, kinds, i as int, n)[j]).placement_idx
                == i && open_in_row(t, kinds, i as int, n)[j].conn_idx < n,
        forall|k: usize|
            k < n ==> #[trigger] open_in_row(t, kinds, i as int, n).contains(ConnectedTo { placement_idx: i, conn_idx: k })
                == open_connector(t, kinds, i as int, k as int),
    decreases n,
{
    if n > 0 {
        lemma_open_in_row_members(t, kinds, i, n - 1);
        let prev = open_in_row(t, kinds, i as int, n - 1);
        let cur = open_in_row(t, kinds, i as int, n);
        let last = ConnectedTo { placement_idx: i, conn_idx: (n - 1) as usize };
        if open_connector(t, kinds, i as int, n - 1) {
            assert(cur == prev.push(last));
        } else {
            assert(cur == prev);
        }
        assert forall|k: usize| k < n implies #[trigger] cur.contains(ConnectedTo { placement_idx: i, conn_idx: k })
            == open_connector(t, kinds, i as int, k as int) by {
            let e = ConnectedTo { placement_idx: i, conn_idx: k };
            if prev.contains(e) {
                let j = choose|j: int| 0 <= j < prev.len() && prev[j] == e;
                assert(cur[j] == e);
            }
            if cur.contains(e) {
                let j = choose|j: int| 0 <= j < cur.len() && cur[j] == e;
                if j < prev.len() {
                    assert(prev[j] == e);
                    assert(prev[j].conn_idx < n - 1);
                } else {
                    assert(e == last);
                }
            }
            if k == n - 1 && open_connector(t, kinds, i as int, k as int) {
                assert(cur[prev.len() as int] == e);
            }
        }
    }
}

/// The open connectors of the first `n` placements: each connector `k` of a
/// placement `i` below `n` is listed exactly when [`open_connector`] admits
/// it, and nothing else is listed.
proof fn lemma_open_upto_members(t: Links, kinds: Seq<Seq<ConnKind>>, n: int)
    requires
        0 <= n <= usize::MAX + 1,
        forall|i: int| 0 <= i < n ==> #[trigger] kinds[i].len() <= usize::MAX,
    ensures
        forall|j: int|
            0 <= j < open_upto(t, kinds, n).len() ==> (#[trigger] open_upto(t, kinds, n)[j]).placement_idx < n
                && open_upto(t, kinds, n)[j].conn_idx < kinds[open_upto(t, kinds, n)[j].placement_idx as int].len(),
        forall|i: usize, k: usize|
            i < n && k < kinds[i as int].len() ==> #[trigger] open_upto(t, kinds, n).contains(
                ConnectedTo { placement_idx: i, conn_idx: k },
            ) == open_connector(t, kinds, i as int, k as int),
    decreases n,
{
    if n > 0 {
        lemma_open_upto_members(t, kinds, n - 1);
        let last = (n - 1) as usize;
        lemma_open_in_row_members(t, kinds, last, kinds[n - 1].len() as int);
        let prev = open_upto(t, kinds, n - 1);
        let row = open_in_row(t, kinds, n - 1, kinds[n - 1].len() as int);
        let cur = open_upto(t, kinds, n);
        assert(cur == prev + row);
        assert forall|j: int| 0 <= j < cur.len() implies (#[trigger] cur[j]).placement_idx < n && cur[j].conn_idx
            < kinds[cur[j].placement_idx as int].len() by {
            if j < prev.len() {
                assert(cur[j] == prev[j]);
            } else {
                assert(cur[j] == row[j - prev.len()]);
            }
        }
        assert forall|i: usize, k: usize| i < n && k < kinds[i as int].len() implies #[trigger] cur.contains(
            ConnectedTo { placement_idx: i, conn_idx: k },
        ) == open_connector(t, kinds, i as int, k as int) by {
            let e = ConnectedTo { placement_idx: i, conn_idx: k };
            if cur.contains(e) {
                let j = choose|j: int| 0 <= j < cur.len() && cur[j] == e;
                if j < prev.len() {
                    assert(prev[j] == e);
                    assert(i < n - 1);
                } else {
                    assert(row[j - prev.len()] == e);
                    assert(row.contains(e));
                }
            }
            if i < n - 1 {
                if prev.contains(e) {
                    let j = choose|j: int| 0 <= j < prev.len() && prev[j] == e;
                    assert(cur[j] == e);
                }
            } else {
                if row.contains(e) {
                    let j = choose|j: int| 0 <= j < row.len() && row[j] == e;
                    assert(cur[prev.len() + j] == e);
                }
            }
        }
    }
}

/// Every connector of a model that holds no link is open, and so is every
/// bar: the open connectors of a shaped graph are exactly its bars and its
/// connectors without links, each listed once per connector.
pub proof fn lemma_open_connectors_members(g: AssemblyGraph)
    requires
        g.shaped(),
    ensures
        forall|i: usize, k: usize|
            i < g.placement_parts@.len() && k < g.placement_kinds()[i as int].len() ==> #[trigger] open_upto(
                g.links(),
                g.placement_kinds(),
                g.placement_parts@.len() as int,
            ).contains(ConnectedTo { placement_idx: i, conn_idx: k }) == (g.placement_kinds()[i as int][k as int] is BarConn
                || g.links()[i as int][k as int].len() == 0),
        forall|i: usize, k: usize|
            i < g.placement_parts@.len() && k < g.placement_kinds()[i as int].len() && g.links()[i as int][k as int].len()
                == 0 ==> #[trigger] open_upto(g.links(), g.placement_kinds(), g.placement_parts@.len() as int).contains(
                ConnectedTo { placement_idx: i, conn_idx: k },
            ),
{
    assert(g.placement_parts@.len() == g.placement_parts.len());
    assert forall|i: int| 0 <= i < g.placement_parts@.len() implies #[trigger] g.placement_kinds()[i].len() <= usize::MAX by {
        let p = g.placement_parts@[i] as int;
        assert(g.parts@[p].connectors@.len() == g.parts@[p].connectors.len());
    }
    lemma_open_upto_members(g.links(), g.placement_kinds(), g.placement_parts@.len() as int);
}

/// Every link that the new placement holds after adding joins it to a
/// connector of an earlier placement whose verdict is touching.
proof fn lemma_new_links_touch(g: AssemblyGraph, part: int, tv: Seq<Seq<Seq<bool>>>)
    requires
        g.shaped(),
        0 <= part < g.parts@.len(),
    ensures
        forall|cc: int, j: int|
            0 <= cc < part_kinds(g.parts@, part).len() && 0 <= j < g.links_after_adding(part, tv)[g.placement_parts@.len() as int][cc].len()
                ==> ({
                let e = #[trigger] g.links_after_adding(part, tv)[g.placement_parts@.len() as int][cc][j];
                &&& e.placement_idx < g.placement_parts@.len()
                &&& e.conn_idx < g.placement_kinds()[e.placement_idx as int].len()
                &&& tv[e.placement_idx as int][e.conn_idx as int][cc]
            }),
{
    lemma_adding_links_pairwise(g, part, tv);
    lemma_added_links_touch(g, part, tv);
    let t = g.links_after_adding(part, tv);
    let c = g.placement_parts@.len() as int;
    assert(g.parts@[part].connectors@.len() == g.parts@[part].connectors.len());
    assert forall|cc: int, j: int| 0 <= cc < part_kinds(g.parts@, part).len() && 0 <= j < t[c][cc].len() implies ({
        let e = #[trigger] t[c][cc][j];
        &&& e.placement_idx < g.placement_parts@.len()
        &&& e.conn_idx < g.placement_kinds()[e.placement_idx as int].len()
        &&& tv[e.placement_idx as int][e.conn_idx as int][cc]
    }) by {
        let x = cc as usize;
        let e = t[c][x as int][j];
        assert(is_pair(g, part, e.placement_idx, e.conn_idx, x));
        assert(t[c][x as int].contains(e));
        assert(has_link(t, c, x, e.placement_idx, e.conn_idx));
    }
}

/// Table `t` grows out of `base` by appending to lists only, and every link
/// appended to a placement other than `c` points at placement `c`.
pub open spec fn grows(t: Links, base: Links, c: int) -> bool {
    &&& t.len() == base.len()
    &&& forall|i: int| 0 <= i < t.len() ==> #[trigger] t[i].len() == base[i].len()
    &&& forall|i: int, k: int|
        0 <= i < t.len() && 0 <= k < t[i].len() ==> (#[trigger] base[i][k]).is_prefix_of(t[i][k])
    &&& forall|i: int, k: int, j: int|
        0 <= i < t.len() && i != c && 0 <= k < t[i].len() && base[i][k].len() <= j < t[i][k].len()
            ==> (#[trigger] t[i][k][j]).placement_idx == c
}

pub proof fn lemma_link_step_grows(
    t: Links,
    base: Links,
    mk: ConnKind,
    ck: ConnKind,
    touching: bool,
    m: int,
    mc: int,
    c: int,
    cc: int,
)
    requires
        grows(t, base, c),
        0 <= m < t.len(),
        0 <= c < t.len(),
        m != c,
        0 <= mc < t[m].len(),
        0 <= cc < t[c].len(),
        c <= usize::MAX,
    ensures
        grows(link_step(t, mk, ck, touching, m, mc, c, cc), base, c),
{
    let t2 = link_step(t, mk, ck, touching, m, mc, c, cc);
    if link_rule(mk, ck, touching, t[m][mc].len() == 0, t[c][cc].len() == 0) {
        assert forall|i: int, k: int|
            0 <= i < t2.len() && 0 <= k < t2[i].len() implies (#[trigger] base[i][k]).is_prefix_of(t2[i][k]) by {
            assert(base[i][k].is_prefix_of(t[i][k]));
            if (i == m && k == mc) || (i == c && k == cc) {
                assert forall|j: int| 0 <= j < base[i][k].len() implies t2[i][k][j] == base[i][k][j] by {
                    assert(t2[i][k][j] == t[i][k][j]);
                }
            } else {
                assert(t2[i][k] == t[i][k]);
            }
        }
        assert forall|i: int, k: int, j: int|
            0 <= i < t2.len() && i != c && 0 <= k < t2[i].len() && base[i][k].len() <= j < t2[i][k].len()
                implies (#[trigger] t2[i][k][j]).placement_idx == c by {
            if i == m && k == mc {
                if j < t[m][mc].len() {
                    assert(t2[i][k][j] == t[i][k][j]);
                }
            } else {
                assert(t2[i][k] == t[i][k]);
            }
        }
    }
}


pub proof fn lemma_fold_conns_grows(
    g: AssemblyGraph,
    part: int,
    tv: Seq<Seq<Seq<bool>>>,
    t: Links,
    base: Links,
    m: int,
    mc: int,
    n: int,
)
    requires
        grows(t, base, g.placement_parts@.len() as int),
        base.len() == g.placement_parts@.len() + 1,
        0 <= m < g.placement_parts@.len(),
        0 <= mc < base[m].len(),
        n <= base[g.placement_parts@.len() as int].len(),
        g.placement_parts@.len() <= usize::MAX,
    ensures
        grows(g.fold_conns(part, tv, t, m, mc, n), base, g.placement_parts@.len() as int),
    decreases n,
{
    if n > 0 {
        let c = g.placement_parts@.len() as int;
        lemma_fold_conns_grows(g, part, tv, t, base, m, mc, n - 1);
        let t0 = g.fold_conns(part, tv, t, m, mc, n - 1);
        lemma_link_step_grows(
            t0,
            base,
            g.placement_kinds()[m][mc],
            part_kinds(g.parts@, part)[n - 1],
            tv[m][mc][n - 1],
            m,
            mc,
            c,
            n - 1,
        );
    }
}

pub proof fn lemma_fold_anchor_grows(
    g: AssemblyGraph,
    part: int,
    tv: Seq<Seq<Seq<bool>>>,
    t: Links,
    base: Links,
    m: int,
    n: int,
)
    requires
        grows(t, base, g.placement_parts@.len() as int),
        base.len() == g.placement_parts@.len() + 1,
        0 <= m < g.placement_parts@.len(),
        n <= base[m].len(),
        base[g.placement_parts@.len() as int].len() == part_kinds(g.parts@, part).len(),
        g.placement_parts@.len() <= usize::MAX,
    ensures
        grows(g.fold_anchor(part, tv, t, m, n), base, g.placement_parts@.len() as int),
    decreases n,
{
    if n > 0 {
        lemma_fold_anchor_grows(g, part, tv, t, base, m, n - 1);
        let t0 = g.fold_anchor(part, tv, t, m, n - 1);
        lemma_fold_conns_grows(g, part, tv, t0, base, m, n - 1, part_kinds(g.parts@, part).len() as int);
    }
}

pub proof fn lemma_fold_placements_grows(
    g: AssemblyGraph,
    part: int,
    tv: Seq<Seq<Seq<bool>>>,
    t: Links,
    base: Links,
    n: int,
)
    requires
        grows(t, base, g.placement_parts@.len() as int),
        base.len() == g.placement_parts@.len() + 1,
        n <= g.placement_parts@.len(),
        forall|m: int| 0 <= m < g.placement_parts@.len() ==> #[trigger] base[m].len() == g.placement_kinds()[m].len(),
        base[g.placement_parts@.len() as int].len() == part_kinds(g.parts@, part).len(),
        g.placement_parts@.len() <= usize::MAX,
    ensures
        grows(g.fold_placements(part, tv, t, n), base, g.placement_parts@.len() as int),
    decreases n,
{
    if n > 0 {
        lemma_fold_placements_grows(g, part, tv, t, base, n - 1);
        let t0 = g.fold_placements(part, tv, t, n - 1);
        lemma_fold_anchor_grows(g, part, tv, t0, base, n - 1, g.placement_kinds()[n - 1].len() as int);
    }
}

/// Adding a placement only appends links: every earlier list keeps its
/// links in order, and what is appended to an earlier placement's list
/// points at the new placement.
pub proof fn lemma_adding_only_appends(g: AssemblyGraph, part: int, tv: Seq<Seq<Seq<bool>>>)
    requires
        g.shaped(),
        0 <= part < g.parts@.len(),
    ensures
        grows(
            g.links_after_adding(part, tv),
            g.links().push(empty_row(part_kinds(g.parts@, part).len())),
            g.placement_parts@.len() as int,
        ),
{
    let base = g.links().push(empty_row(part_kinds(g.parts@, part).len()));
    assert forall|i: int, k: int| 0 <= i < base.len() && 0 <= k < base[i].len() implies (#[trigger] base[i][k]).is_prefix_of(base[i][k]) by {
        assert(base[i][k] =~= base[i][k].subrange(0, base[i][k].len() as int));
    }
    assert(g.placement_parts@.len() == g.placement_parts.len());
    lemma_fold_placements_grows(g, part, tv, base, base, g.placement_parts@.len() as int);
}


/// Loading a snapshot restores what it was taken of: a graph with the same
/// parts that loads the state taken of a sound graph has that graph's
/// placements and links, and is sound.
pub proof fn lemma_state_round_trip(g: AssemblyGraph, state: GraphState, h: AssemblyGraph)
    requires
        g.wf(),
        state.placement_parts@ == g.placement_parts@,
        table_view(state.connections) == g.links(),
        h.parts@ == g.parts@,
        h.placement_parts@ == state.placement_parts@,
        h.links() == table_view(state.connections),
    ensures
        h.wf(),
        h.placement_parts@ == g.placement_parts@,
        h.links() == g.links(),
{
    assert(h.placement_kinds() =~= g.placement_kinds());
}


/// Whether `x` is in `v`.
fn contains_link(v: &Vec<ConnectedTo>, x: ConnectedTo) -> (res: bool)
    ensures
        res == v@.contains(x),
{
    let mut i: usize = 0;
    while i < v.len()
        invariant
            0 <= i <= v@.len(),
            forall|j: int| 0 <= j < i ==> v@[j] != x,
        decreases v@.len() - i,
    {
        if v[i] == x {
            assert(v@[i as int] == x);
            return true;
        }
        i += 1;
    }
    false
}

} // verus!
