//! Which links adding a placement makes, pair by pair.
//!
//! [`AssemblyGraph::links_after_adding`] tries the connector pairs in a fixed
//! order: the earlier placements in order, each one's connectors in order, and
//! against each of them the new placement's connectors in order. This module
//! states the outcome for each pair directly: a pair is linked exactly when
//! [`link_rule`] allows it, where a connector counts as free when no earlier
//! pair of the same order linked it (and, for a connector of an earlier
//! placement, when it had no link before the placement was added).
use vstd::prelude::*;

use crate::connectors::{lemma_bar_holds_many_clips, lemma_link_needs_touching, link_rule, ConnKind};
use crate::engine::{
    empty_row, grows, lemma_adding_only_appends, lemma_link_step_grows, link_step, part_kinds, AssemblyGraph,
    ConnectedTo, Links,
};

verus! {

/// Whether the list of connector `cc` of placement `c` in `t` holds a link to
/// connector `mc` of placement `m`.
pub open spec fn has_link(t: Links, c: int, cc: usize, m: usize, mc: usize) -> bool {
    t[c][cc as int].contains(ConnectedTo { placement_idx: m, conn_idx: mc })
}

/// Connector `mc` of placement `m` is tried before connector `mc2` of
/// placement `m2`: placements in order, and within one its connectors in order.
pub open spec fn tried_before(m: usize, mc: usize, m2: usize, mc2: usize) -> bool {
    m < m2 || (m == m2 && mc < mc2)
}

/// Connector `mc` of the earlier placement `m` and connector `cc` of a new
/// placement of part `part` exist.
pub open spec fn is_pair(g: AssemblyGraph, part: int, m: usize, mc: usize, cc: usize) -> bool {
    &&& m < g.placement_parts@.len()
    &&& mc < g.placement_kinds()[m as int].len()
    &&& cc < part_kinds(g.parts@, part).len()
}

/// With `t` the links after adding, connector `mc` of placement `m` is free
/// when it is tried against connector `cc` of the new placement: it had no
/// link before, and is linked to no earlier connector of the new placement.
pub open spec fn model_free(g: AssemblyGraph, t: Links, m: usize, mc: usize, cc: usize) -> bool {
    &&& g.links()[m as int][mc as int].len() == 0
    &&& forall|x: usize| x < cc ==> !#[trigger] has_link(t, g.placement_parts@.len() as int, x, m, mc)
}

/// With `t` the links after adding, connector `cc` of the new placement is
/// free when it is tried against connector `mc` of placement `m`: it is linked
/// to no connector tried before that one.
pub open spec fn new_free(g: AssemblyGraph, part: int, t: Links, m: usize, mc: usize, cc: usize) -> bool {
    forall|m2: usize, mc2: usize|
        is_pair(g, part, m2, mc2, cc) && tried_before(m2, mc2, m, mc) ==> !#[trigger] has_link(
            t,
            g.placement_parts@.len() as int,
            cc,
            m2,
            mc2,
        )
}

/// What [`link_rule`] says of the pair, with the freeness that `t` records.
pub open spec fn pair_allowed(
    g: AssemblyGraph,
    part: int,
    touching: Seq<Seq<Seq<bool>>>,
    t: Links,
    m: usize,
    mc: usize,
    cc: usize,
) -> bool {
    link_rule(
        g.placement_kinds()[m as int][mc as int],
        part_kinds(g.parts@, part)[cc as int],
        touching[m as int][mc as int][cc as int],
        model_free(g, t, m, mc, cc),
        new_free(g, part, t, m, mc, cc),
    )
}

/// The links that adding appended to connector `k` of placement `i`.
pub open spec fn appended(t: Links, base: Links, i: int, k: int) -> Seq<ConnectedTo> {
    t[i][k].subrange(base[i][k].len() as int, t[i][k].len() as int)
}

/// Pair `(m, mc, cc)` has been tried once the fold stands at `(m0, mc0, n0)`.
spec fn done(m: usize, mc: usize, cc: usize, m0: int, mc0: int, n0: int) -> bool {
    m < m0 || (m == m0 && (mc < mc0 || (mc == mc0 && cc < n0)))
}

spec fn adding_base(g: AssemblyGraph, part: int) -> Links {
    g.links().push(empty_row(part_kinds(g.parts@, part).len()))
}

/// What holds of the links `t` once the fold stands at `(m0, mc0, n0)`.
spec fn pairwise_inv(
    g: AssemblyGraph,
    part: int,
    touching: Seq<Seq<Seq<bool>>>,
    t: Links,
    m0: int,
    mc0: int,
    n0: int,
) -> bool {
    let c = g.placement_parts@.len() as int;
    let base = adding_base(g, part);
    &&& grows(t, base, c)
    &&& forall|cc: usize, j: int|
        cc < part_kinds(g.parts@, part).len() && 0 <= j < t[c][cc as int].len() ==> is_pair(
            g,
            part,
            (#[trigger] t[c][cc as int][j]).placement_idx,
            t[c][cc as int][j].conn_idx,
            cc,
        ) && done(t[c][cc as int][j].placement_idx, t[c][cc as int][j].conn_idx, cc, m0, mc0, n0)
    &&& forall|i: int, k: int, j: int|
        0 <= i < c && 0 <= k < t[i].len() && 0 <= j < appended(t, base, i, k).len()
            ==> (#[trigger] appended(t, base, i, k)[j]).conn_idx < part_kinds(g.parts@, part).len()
    &&& forall|m: usize, mc: usize, cc: usize|
        is_pair(g, part, m, mc, cc) ==> appended(t, base, m as int, mc as int).contains(
            ConnectedTo { placement_idx: c as usize, conn_idx: cc },
        ) == #[trigger] has_link(t, c, cc, m, mc)
    &&& forall|m: usize, mc: usize, cc: usize|
        is_pair(g, part, m, mc, cc) && done(m, mc, cc, m0, mc0, n0) ==> #[trigger] has_link(t, c, cc, m, mc)
            == pair_allowed(g, part, touching, t, m, mc, cc)
}

/// `model_free` reads only the pairs tried before the given one.
proof fn lemma_model_free_same(g: AssemblyGraph, t: Links, t2: Links, m: usize, mc: usize, cc: usize)
    requires
        forall|x: usize|
            x < cc ==> #[trigger] has_link(t2, g.placement_parts@.len() as int, x, m, mc) == has_link(
                t,
                g.placement_parts@.len() as int,
                x,
                m,
                mc,
            ),
    ensures
        model_free(g, t2, m, mc, cc) == model_free(g, t, m, mc, cc),
{
    let c = g.placement_parts@.len() as int;
    if model_free(g, t, m, mc, cc) {
        assert forall|x: usize| x < cc implies !#[trigger] has_link(t2, c, x, m, mc) by {
            assert(!has_link(t, c, x, m, mc));
        }
    }
    if model_free(g, t2, m, mc, cc) {
        assert forall|x: usize| x < cc implies !#[trigger] has_link(t, c, x, m, mc) by {
            assert(!has_link(t2, c, x, m, mc));
        }
    }
}

/// `new_free` reads only the pairs tried before the given one.
proof fn lemma_new_free_same(g: AssemblyGraph, part: int, t: Links, t2: Links, m: usize, mc: usize, cc: usize)
    requires
        forall|a: usize, b: usize|
            is_pair(g, part, a, b, cc) && tried_before(a, b, m, mc) ==> #[trigger] has_link(
                t2,
                g.placement_parts@.len() as int,
                cc,
                a,
                b,
            ) == has_link(t, g.placement_parts@.len() as int, cc, a, b),
    ensures
        new_free(g, part, t2, m, mc, cc) == new_free(g, part, t, m, mc, cc),
{
    let c = g.placement_parts@.len() as int;
    if new_free(g, part, t, m, mc, cc) {
        assert forall|a: usize, b: usize| is_pair(g, part, a, b, cc) && tried_before(a, b, m, mc) implies !#[trigger] has_link(
            t2,
            c,
            cc,
            a,
            b,
        ) by {
            assert(!has_link(t, c, cc, a, b));
        }
    }
    if new_free(g, part, t2, m, mc, cc) {
        assert forall|a: usize, b: usize| is_pair(g, part, a, b, cc) && tried_before(a, b, m, mc) implies !#[trigger] has_link(
            t,
            c,
            cc,
            a,
            b,
        ) by {
            assert(!has_link(t2, c, cc, a, b));
        }
    }
}

/// Trying pair `(m, mc, cc)` keeps the invariant, one pair further on.
proof fn lemma_pairwise_step(
    g: AssemblyGraph,
    part: int,
    touching: Seq<Seq<Seq<bool>>>,
    t: Links,
    m: usize,
    mc: usize,
    cc: usize,
)
    requires
        g.shaped(),
        0 <= part < g.parts@.len(),
        is_pair(g, part, m, mc, cc),
        pairwise_inv(g, part, touching, t, m as int, mc as int, cc as int),
    ensures
        pairwise_inv(
            g,
            part,
            touching,
            link_step(
                t,
                g.placement_kinds()[m as int][mc as int],
                part_kinds(g.parts@, part)[cc as int],
                touching[m as int][mc as int][cc as int],
                m as int,
                mc as int,
                g.placement_parts@.len() as int,
                cc as int,
            ),
            m as int,
            mc as int,
            cc + 1,
        ),
{
    let c = g.placement_parts@.len() as int;
    let nk = part_kinds(g.parts@, part).len();
    let base = adding_base(g, part);
    let mk = g.placement_kinds()[m as int][mc as int];
    let ck = part_kinds(g.parts@, part)[cc as int];
    let tb = touching[m as int][mc as int][cc as int];
    let t2 = link_step(t, mk, ck, tb, m as int, mc as int, c, cc as int);
    let rule = link_rule(mk, ck, tb, t[m as int][mc as int].len() == 0, t[c][cc as int].len() == 0);
    let me = ConnectedTo { placement_idx: m, conn_idx: mc };
    let ce = ConnectedTo { placement_idx: c as usize, conn_idx: cc };
    assert(g.placement_parts@.len() == g.placement_parts.len());
    assert(base[m as int] == g.links()[m as int]);
    assert(base[c].len() == nk);
    lemma_link_step_grows(t, base, mk, ck, tb, m as int, mc as int, c, cc as int);
    // the pair has not been linked yet
    if has_link(t, c, cc, m, mc) {
        let j = choose|j: int| 0 <= j < t[c][cc as int].len() && t[c][cc as int][j] == me;
        assert(t[c][cc as int][j] == me);
    }
    // the lists that the step may change
    assert(t2[c][cc as int] == if rule { t[c][cc as int].push(me) } else { t[c][cc as int] });
    assert(t2[m as int][mc as int] == if rule { t[m as int][mc as int].push(ce) } else { t[m as int][mc as int] });
    assert forall|x: usize| x < nk && x != cc implies #[trigger] t2[c][x as int] == t[c][x as int] by {}
    assert forall|i: int, k: int| 0 <= i < c && 0 <= k < t[i].len() && !(i == m && k == mc) implies #[trigger] t2[i][k]
        == t[i][k] by {}
    // what the new placement's lists record changes at the pair alone
    assert forall|x: usize, a: usize, b: usize| x < nk implies #[trigger] has_link(t2, c, x, a, b) == (has_link(
        t,
        c,
        x,
        a,
        b,
    ) || (rule && x == cc && a == m && b == mc)) by {
        let e = ConnectedTo { placement_idx: a, conn_idx: b };
        if x == cc && rule {
            assert(t2[c][x as int] == t[c][cc as int].push(me));
            if t[c][cc as int].contains(e) {
                let j = choose|j: int| 0 <= j < t[c][cc as int].len() && t[c][cc as int][j] == e;
                assert(t2[c][x as int][j] == e);
            }
            if a == m && b == mc {
                assert(t2[c][x as int][t[c][cc as int].len() as int] == e);
            }
            if t2[c][x as int].contains(e) {
                let j = choose|j: int| 0 <= j < t2[c][x as int].len() && t2[c][x as int][j] == e;
                if j < t[c][cc as int].len() {
                    assert(t[c][cc as int][j] == e);
                }
            }
        }
    }
    // freeness as the step reads it
    if t[c][cc as int].len() != 0 {
        let e = t[c][cc as int][0];
        assert(has_link(t, c, cc, e.placement_idx, e.conn_idx));
    }
    assert(new_free(g, part, t, m, mc, cc) == (t[c][cc as int].len() == 0));
    let ap = appended(t, base, m as int, mc as int);
    assert(t[m as int][mc as int] =~= base[m as int][mc as int] + ap);
    if ap.len() != 0 {
        let e = ap[0];
        assert(e.placement_idx == c);
        assert(ap.contains(ConnectedTo { placement_idx: c as usize, conn_idx: e.conn_idx }));
        assert(has_link(t, c, e.conn_idx, m, mc));
    }
    assert(model_free(g, t, m, mc, cc) == (t[m as int][mc as int].len() == 0));
    // the new state
    assert forall|a: usize, b: usize, x: usize| is_pair(g, part, a, b, x) && done(a, b, x, m as int, mc as int, cc as int)
        implies model_free(g, t2, a, b, x) == model_free(g, t, a, b, x) && new_free(g, part, t2, a, b, x)
        == new_free(g, part, t, a, b, x) by {
        lemma_model_free_same(g, t, t2, a, b, x);
        lemma_new_free_same(g, part, t, t2, a, b, x);
    }
    lemma_model_free_same(g, t, t2, m, mc, cc);
    lemma_new_free_same(g, part, t, t2, m, mc, cc);
    assert(pair_allowed(g, part, touching, t2, m, mc, cc) == rule);
    // the new placement's lists
    assert forall|x: usize, j: int| x < nk && 0 <= j < t2[c][x as int].len() implies is_pair(
        g,
        part,
        (#[trigger] t2[c][x as int][j]).placement_idx,
        t2[c][x as int][j].conn_idx,
        x,
    ) && done(t2[c][x as int][j].placement_idx, t2[c][x as int][j].conn_idx, x, m as int, mc as int, cc + 1) by {
        if j < t[c][x as int].len() {
            assert(t2[c][x as int][j] == t[c][x as int][j]);
        }
    }
    // what was appended to the earlier placements' lists
    assert(appended(t2, base, m as int, mc as int) =~= if rule { ap.push(ce) } else { ap });
    assert forall|i: int, k: int, j: int| 0 <= i < c && 0 <= k < t2[i].len() && 0 <= j < appended(t2, base, i, k).len()
        implies (#[trigger] appended(t2, base, i, k)[j]).conn_idx < nk by {
        if !(i == m && k == mc) {
            assert(appended(t2, base, i, k) == appended(t, base, i, k));
        } else if j < ap.len() {
            assert(appended(t2, base, i, k)[j] == ap[j]);
        }
    }
    assert forall|a: usize, b: usize, x: usize| is_pair(g, part, a, b, x) implies appended(t2, base, a as int, b as int).contains(
        ConnectedTo { placement_idx: c as usize, conn_idx: x },
    ) == #[trigger] has_link(t2, c, x, a, b) by {
        let e = ConnectedTo { placement_idx: c as usize, conn_idx: x };
        if rule && a == m && b == mc {
            if ap.contains(e) {
                let j = choose|j: int| 0 <= j < ap.len() && ap[j] == e;
                assert(ap.push(ce)[j] == e);
            }
            if x == cc {
                assert(ap.push(ce)[ap.len() as int] == e);
            }
            if ap.push(ce).contains(e) {
                let j = choose|j: int| 0 <= j < ap.len() + 1 && ap.push(ce)[j] == e;
                if j < ap.len() {
                    assert(ap[j] == e);
                }
            }
        } else {
            assert(appended(t2, base, a as int, b as int) == appended(t, base, a as int, b as int));
        }
    }
}

/// The invariant reads the cursor only through which pairs are tried.
proof fn lemma_pairwise_cursor(
    g: AssemblyGraph,
    part: int,
    touching: Seq<Seq<Seq<bool>>>,
    t: Links,
    m0: int,
    mc0: int,
    n0: int,
    m1: int,
    mc1: int,
    n1: int,
)
    requires
        pairwise_inv(g, part, touching, t, m0, mc0, n0),
        forall|a: usize, b: usize, x: usize|
            #[trigger] is_pair(g, part, a, b, x) ==> done(a, b, x, m0, mc0, n0) == done(a, b, x, m1, mc1, n1),
    ensures
        pairwise_inv(g, part, touching, t, m1, mc1, n1),
{
}

/// Connector `mc` of placement `m` tried against the first `n` connectors of
/// the new placement.
proof fn lemma_pairwise_conns(
    g: AssemblyGraph,
    part: int,
    touching: Seq<Seq<Seq<bool>>>,
    t: Links,
    m: usize,
    mc: usize,
    n: int,
)
    requires
        g.shaped(),
        0 <= part < g.parts@.len(),
        m < g.placement_parts@.len(),
        mc < g.placement_kinds()[m as int].len(),
        0 <= n <= part_kinds(g.parts@, part).len(),
        pairwise_inv(g, part, touching, t, m as int, mc as int, 0),
    ensures
        pairwise_inv(g, part, touching, g.fold_conns(part, touching, t, m as int, mc as int, n), m as int, mc as int, n),
    decreases n,
{
    if n > 0 {
        lemma_pairwise_conns(g, part, touching, t, m, mc, n - 1);
        let t0 = g.fold_conns(part, touching, t, m as int, mc as int, n - 1);
        assert(g.parts@[part].connectors@.len() == g.parts@[part].connectors.len());
        lemma_pairwise_step(g, part, touching, t0, m, mc, (n - 1) as usize);
    }
}

/// The first `n` connectors of placement `m` tried against every connector
/// of the new placement.
proof fn lemma_pairwise_anchor(
    g: AssemblyGraph,
    part: int,
    touching: Seq<Seq<Seq<bool>>>,
    t: Links,
    m: usize,
    n: int,
)
    requires
        g.shaped(),
        0 <= part < g.parts@.len(),
        m < g.placement_parts@.len(),
        0 <= n <= g.placement_kinds()[m as int].len(),
        pairwise_inv(g, part, touching, t, m as int, 0, 0),
    ensures
        pairwise_inv(g, part, touching, g.fold_anchor(part, touching, t, m as int, n), m as int, n, 0),
    decreases n,
{
    if n > 0 {
        lemma_pairwise_anchor(g, part, touching, t, m, n - 1);
        let t0 = g.fold_anchor(part, touching, t, m as int, n - 1);
        let nk = part_kinds(g.parts@, part).len() as int;
        let p = g.placement_parts@[m as int];
        assert(g.parts@[p as int].connectors@.len() == g.parts@[p as int].connectors.len());
        lemma_pairwise_cursor(g, part, touching, t0, m as int, n - 1, 0, m as int, n - 1, 0);
        lemma_pairwise_conns(g, part, touching, t0, m, (n - 1) as usize, nk);
        let t1 = g.fold_conns(part, touching, t0, m as int, n - 1, nk);
        lemma_pairwise_cursor(g, part, touching, t1, m as int, n - 1, nk, m as int, n, 0);
    }
}

/// The first `n` placements tried against the new placement.
proof fn lemma_pairwise_placements(g: AssemblyGraph, part: int, touching: Seq<Seq<Seq<bool>>>, t: Links, n: int)
    requires
        g.shaped(),
        0 <= part < g.parts@.len(),
        0 <= n <= g.placement_parts@.len(),
        pairwise_inv(g, part, touching, t, 0, 0, 0),
    ensures
        pairwise_inv(g, part, touching, g.fold_placements(part, touching, t, n), n, 0, 0),
    decreases n,
{
    if n > 0 {
        lemma_pairwise_placements(g, part, touching, t, n - 1);
        let t0 = g.fold_placements(part, touching, t, n - 1);
        assert(g.placement_parts@.len() == g.placement_parts.len());
        lemma_pairwise_anchor(g, part, touching, t0, (n - 1) as usize, g.placement_kinds()[n - 1].len() as int);
        let t1 = g.fold_anchor(part, touching, t0, n - 1, g.placement_kinds()[n - 1].len() as int);
        lemma_pairwise_cursor(
            g,
            part,
            touching,
            t1,
            n - 1,
            g.placement_kinds()[n - 1].len() as int,
            0,
            n,
            0,
            0,
        );
    }
}

/// Which links adding a placement of part `part` makes, pair by pair: in the
/// links after adding, connector `cc` of the new placement is linked with
/// connector `mc` of the earlier placement `m` exactly when [`link_rule`]
/// allows it for the two kinds and their geometric verdict, where the earlier
/// connector is free when it had no link before and was linked to no earlier
/// connector of the new placement, and the new connector is free when it was
/// linked to no connector tried before `(m, mc)`. The link is recorded both
/// ways, and the new placement is linked to nothing else.
pub proof fn lemma_adding_links_pairwise(g: AssemblyGraph, part: int, touching: Seq<Seq<Seq<bool>>>)
    requires
        g.shaped(),
        0 <= part < g.parts@.len(),
    ensures
        forall|m: usize, mc: usize, cc: usize|
            is_pair(g, part, m, mc, cc) ==> #[trigger] has_link(
                g.links_after_adding(part, touching),
                g.placement_parts@.len() as int,
                cc,
                m,
                mc,
            ) == pair_allowed(g, part, touching, g.links_after_adding(part, touching), m, mc, cc),
        forall|m: usize, mc: usize, cc: usize|
            is_pair(g, part, m, mc, cc) ==> appended(g.links_after_adding(part, touching), g.links(), m as int, mc as int).contains(
                ConnectedTo { placement_idx: g.placement_parts@.len() as usize, conn_idx: cc },
            ) == #[trigger] has_link(g.links_after_adding(part, touching), g.placement_parts@.len() as int, cc, m, mc),
        forall|cc: usize, j: int|
            cc < part_kinds(g.parts@, part).len() && 0 <= j < g.links_after_adding(part, touching)[g.placement_parts@.len() as int][cc as int].len()
                ==> is_pair(
                g,
                part,
                (#[trigger] g.links_after_adding(part, touching)[g.placement_parts@.len() as int][cc as int][j]).placement_idx,
                g.links_after_adding(part, touching)[g.placement_parts@.len() as int][cc as int][j].conn_idx,
                cc,
            ),
{
    let c = g.placement_parts@.len() as int;
    let base = adding_base(g, part);
    lemma_adding_only_appends(g, part, touching);
    assert forall|i: int, k: int| 0 <= i < base.len() && 0 <= k < base[i].len() implies (#[trigger] base[i][k]).is_prefix_of(
        base[i][k],
    ) by {
        assert(base[i][k] =~= base[i][k].subrange(0, base[i][k].len() as int));
    }
    assert forall|i: int, k: int| 0 <= i < c && 0 <= k < base[i].len() implies #[trigger] appended(base, base, i, k).len() == 0 by {}
    assert forall|m: usize, mc: usize, cc: usize| is_pair(g, part, m, mc, cc) implies !#[trigger] has_link(base, c, cc, m, mc) by {
        assert(base[c][cc as int].len() == 0);
    }
    assert forall|m: usize, mc: usize, cc: usize| is_pair(g, part, m, mc, cc) implies !appended(base, base, m as int, mc as int).contains(
        ConnectedTo { placement_idx: c as usize, conn_idx: cc },
    ) by {
        assert(appended(base, base, m as int, mc as int).len() == 0);
    }
    assert(pairwise_inv(g, part, touching, base, 0, 0, 0));
    lemma_pairwise_placements(g, part, touching, base, c);
    let t = g.links_after_adding(part, touching);
    assert forall|m: usize, mc: usize| m < c && mc < g.placement_kinds()[m as int].len() implies #[trigger] appended(t, g.links(), m as int, mc as int)
        == appended(t, base, m as int, mc as int) by {
        assert(base[m as int] == g.links()[m as int]);
    }
}

/// Adding a placement links only connectors that touch: every link between
/// an earlier connector and one of the new placement, recorded either way,
/// has a `touching` verdict.
pub proof fn lemma_added_links_touch(g: AssemblyGraph, part: int, touching: Seq<Seq<Seq<bool>>>)
    requires
        g.shaped(),
        0 <= part < g.parts@.len(),
    ensures
        forall|m: usize, mc: usize, cc: usize|
            is_pair(g, part, m, mc, cc) && #[trigger] has_link(
                g.links_after_adding(part, touching),
                g.placement_parts@.len() as int,
                cc,
                m,
                mc,
            ) ==> touching[m as int][mc as int][cc as int],
        forall|m: usize, mc: usize, cc: usize|
            is_pair(g, part, m, mc, cc) && #[trigger] appended(g.links_after_adding(part, touching), g.links(), m as int, mc as int).contains(
                ConnectedTo { placement_idx: g.placement_parts@.len() as usize, conn_idx: cc },
            ) ==> touching[m as int][mc as int][cc as int],
{
    lemma_adding_links_pairwise(g, part, touching);
    let t = g.links_after_adding(part, touching);
    let c = g.placement_parts@.len() as int;
    assert forall|m: usize, mc: usize, cc: usize|
        is_pair(g, part, m, mc, cc) && #[trigger] has_link(t, c, cc, m, mc) implies touching[m as int][mc as int][cc as int] by {
        lemma_link_needs_touching(
            g.placement_kinds()[m as int][mc as int],
            part_kinds(g.parts@, part)[cc as int],
            touching[m as int][mc as int][cc as int],
            model_free(g, t, m, mc, cc),
            new_free(g, part, t, m, mc, cc),
        );
    }
    assert forall|m: usize, mc: usize, cc: usize|
        is_pair(g, part, m, mc, cc) && #[trigger] appended(t, g.links(), m as int, mc as int).contains(
            ConnectedTo { placement_idx: c as usize, conn_idx: cc },
        ) implies touching[m as int][mc as int][cc as int] by {
        assert(has_link(t, c, cc, m, mc));
    }
}

/// A new bar takes every clip of the model that touches it and is free: a
/// clip with no link before, touching the bar and no earlier connector of
/// the new placement, is linked to the bar, however many other clips the bar
/// takes.
pub proof fn lemma_new_bar_takes_free_clips(g: AssemblyGraph, part: int, touching: Seq<Seq<Seq<bool>>>)
    requires
        g.shaped(),
        0 <= part < g.parts@.len(),
    ensures
        forall|m: usize, mc: usize, cc: usize|
            is_pair(g, part, m, mc, cc) && g.placement_kinds()[m as int][mc as int] is ClipConn && part_kinds(
                g.parts@,
                part,
            )[cc as int] is BarConn && touching[m as int][mc as int][cc as int] && g.links()[m as int][mc as int].len()
                == 0 && (forall|x: usize| x < cc ==> !touching[m as int][mc as int][x as int]) ==> #[trigger] has_link(
                g.links_after_adding(part, touching),
                g.placement_parts@.len() as int,
                cc,
                m,
                mc,
            ),
{
    lemma_adding_links_pairwise(g, part, touching);
    lemma_added_links_touch(g, part, touching);
    let t = g.links_after_adding(part, touching);
    let c = g.placement_parts@.len() as int;
    assert forall|m: usize, mc: usize, cc: usize|
        is_pair(g, part, m, mc, cc) && g.placement_kinds()[m as int][mc as int] is ClipConn && part_kinds(
            g.parts@,
            part,
        )[cc as int] is BarConn && touching[m as int][mc as int][cc as int] && g.links()[m as int][mc as int].len()
            == 0 && (forall|x: usize| x < cc ==> !touching[m as int][mc as int][x as int]) implies #[trigger] has_link(
            t,
            c,
            cc,
            m,
            mc,
        ) by {
        assert forall|x: usize| x < cc implies !#[trigger] has_link(t, c, x, m, mc) by {
            assert(is_pair(g, part, m, mc, x));
            assert(!touching[m as int][mc as int][x as int]);
        }
        assert(model_free(g, t, m, mc, cc));
        lemma_bar_holds_many_clips(
            g.placement_kinds()[m as int][mc as int],
            part_kinds(g.parts@, part)[cc as int],
            touching[m as int][mc as int][cc as int],
            model_free(g, t, m, mc, cc),
            new_free(g, part, t, m, mc, cc),
        );
    }
}

/// A bar of the model takes a new clip that touches it whatever the bar
/// already holds: where the clip touches no connector tried before the bar,
/// the two are linked.
pub proof fn lemma_model_bar_takes_new_clip(g: AssemblyGraph, part: int, touching: Seq<Seq<Seq<bool>>>)
    requires
        g.shaped(),
        0 <= part < g.parts@.len(),
    ensures
        forall|m: usize, mc: usize, cc: usize|
            is_pair(g, part, m, mc, cc) && g.placement_kinds()[m as int][mc as int] is BarConn && part_kinds(
                g.parts@,
                part,
            )[cc as int] is ClipConn && touching[m as int][mc as int][cc as int] && (forall|m2: usize, mc2: usize|
                is_pair(g, part, m2, mc2, cc) && tried_before(m2, mc2, m, mc) ==> !touching[m2 as int][mc2 as int][cc as int])
                ==> #[trigger] has_link(g.links_after_adding(part, touching), g.placement_parts@.len() as int, cc, m, mc),
{
    lemma_adding_links_pairwise(g, part, touching);
    lemma_added_links_touch(g, part, touching);
    let t = g.links_after_adding(part, touching);
    let c = g.placement_parts@.len() as int;
    assert forall|m: usize, mc: usize, cc: usize|
        is_pair(g, part, m, mc, cc) && g.placement_kinds()[m as int][mc as int] is BarConn && part_kinds(
            g.parts@,
            part,
        )[cc as int] is ClipConn && touching[m as int][mc as int][cc as int] && (forall|m2: usize, mc2: usize|
            is_pair(g, part, m2, mc2, cc) && tried_before(m2, mc2, m, mc) ==> !touching[m2 as int][mc2 as int][cc as int])
            implies #[trigger] has_link(t, c, cc, m, mc) by {
        assert forall|m2: usize, mc2: usize| is_pair(g, part, m2, mc2, cc) && tried_before(m2, mc2, m, mc) implies !#[trigger] has_link(
            t,
            c,
            cc,
            m2,
            mc2,
        ) by {
            assert(!touching[m2 as int][mc2 as int][cc as int]);
        }
        assert(new_free(g, part, t, m, mc, cc));
        lemma_bar_holds_many_clips(
            g.placement_kinds()[m as int][mc as int],
            part_kinds(g.parts@, part)[cc as int],
            touching[m as int][mc as int][cc as int],
            model_free(g, t, m, mc, cc),
            new_free(g, part, t, m, mc, cc),
        );
    }
}

} // verus!
