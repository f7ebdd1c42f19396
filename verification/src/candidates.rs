use vstd::prelude::*;

use crate::connectors::{compatible, ConnKind};
use crate::engine::{part_kinds, AssemblyGraph};

verus! {

/// Constrains the candidates returned by a query.
#[derive(Debug, Clone, Copy, PartialEq, Eq, Structural)]
pub struct Query {
    /// If present, limits candidates to those that use this part.
    pub part_id: Option<usize>,
    /// If present, limits candidates to those attached to this placement.
    pub anchor_idx: Option<usize>,
    /// If true, only the first acceptable candidate is returned.
    pub single: bool,
}

impl Query {
    pub fn new(part_id: Option<usize>, anchor_idx: Option<usize>, single: bool) -> (res: Self)
        ensures
            res.part_id == part_id,
            res.anchor_idx == anchor_idx,
            res.single == single,
    {
        Query { part_id, anchor_idx, single }
    }

    pub fn part_id(&self) -> (res: Option<usize>)
        ensures
            res == self.part_id,
    {
        self.part_id
    }

    pub fn anchor_idx(&self) -> (res: Option<usize>)
        ensures
            res == self.anchor_idx,
    {
        self.anchor_idx
    }

    pub fn single(&self) -> (res: bool)
        ensures
            res == self.single,
    {
        self.single
    }
}

impl Default for Query {
    /// No restriction on part or anchor; every acceptable candidate.
    fn default() -> (res: Self)
        ensures
            res.part_id is None,
            res.anchor_idx is None,
            !res.single,
    {
        Query { part_id: None, anchor_idx: None, single: false }
    }
}

/// A candidate placement, described by how it attaches to the model: part
/// `part_index` is attached by its connector `part_conn` to connector
/// `anchor_conn` of placement `anchor_idx`, turned by `turn` of the
/// configured number of turns. Where one of the two connectors is a bar,
/// `bar_pos` says where on the bar: 0 is the last position at which a whole
/// clip still fits, and `k > 0` the `(k - 1)`-th evenly spaced position from
/// the bar's start. For snap connectors `bar_pos` is 0.
#[derive(Debug, Clone, Copy, PartialEq, Eq, Structural)]
pub struct Candidate {
    pub part_index: usize,
    pub anchor_idx: usize,
    pub anchor_conn: usize,
    pub part_conn: usize,
    pub bar_pos: u32,
    pub turn: u32,
}

pub open spec fn cand(p: int, m: int, mc: int, cc: int, pos: int, r: int) -> Candidate {
    Candidate {
        part_index: p as usize,
        anchor_idx: m as usize,
        anchor_conn: mc as usize,
        part_conn: cc as usize,
        bar_pos: pos as u32,
        turn: r as u32,
    }
}

/// One candidate per turn.
pub open spec fn turns(p: int, m: int, mc: int, cc: int, pos: int, nt: int) -> Seq<Candidate> {
    Seq::new(nt as nat, |r: int| cand(p, m, mc, cc, pos, r))
}

/// Snap connector `mc` (of gender `m_is_a`) against the first `n` connectors
/// `ck` of the part: every snap connector of the other gender, every turn.
pub open spec fn snap_targets(
    ck: Seq<ConnKind>,
    m_is_a: bool,
    p: int,
    m: int,
    mc: int,
    nt: int,
    n: int,
) -> Seq<Candidate>
    decreases n,
{
    if n <= 0 {
        Seq::empty()
    } else {
        snap_targets(ck, m_is_a, p, m, mc, nt, n - 1) + match ck[n - 1] {
            ConnKind::SnapConn { is_a } => if is_a != m_is_a {
                turns(p, m, mc, n - 1, 0, nt)
            } else {
                Seq::empty()
            },
            _ => Seq::empty(),
        }
    }
}

/// The first `npos` positions on bar `cc` of the part, every turn each.
pub open spec fn bar_slots(p: int, m: int, mc: int, cc: int, nt: int, npos: int) -> Seq<Candidate>
    decreases npos,
{
    if npos <= 0 {
        Seq::empty()
    } else {
        bar_slots(p, m, mc, cc, nt, npos - 1) + turns(p, m, mc, cc, npos - 1, nt)
    }
}

/// Clip connector `mc` against the first `n` connectors of the part: every
/// position of every bar, every turn.
pub open spec fn bar_targets(ck: Seq<ConnKind>, p: int, m: int, mc: int, nt: int, n: int) -> Seq<Candidate>
    decreases n,
{
    if n <= 0 {
        Seq::empty()
    } else {
        bar_targets(ck, p, m, mc, nt, n - 1) + match ck[n - 1] {
            ConnKind::BarConn { steps } => bar_slots(p, m, mc, n - 1, nt, steps + 1),
            _ => Seq::empty(),
        }
    }
}

/// Position `pos` of bar connector `mc` against the first `n` connectors of
/// the part: every clip, every turn.
pub open spec fn clip_targets(
    ck: Seq<ConnKind>,
    p: int,
    m: int,
    mc: int,
    pos: int,
    nt: int,
    n: int,
) -> Seq<Candidate>
    decreases n,
{
    if n <= 0 {
        Seq::empty()
    } else {
        clip_targets(ck, p, m, mc, pos, nt, n - 1) + match ck[n - 1] {
            ConnKind::ClipConn => turns(p, m, mc, n - 1, pos, nt),
            _ => Seq::empty(),
        }
    }
}

/// The first `npos` positions of bar connector `mc`, each against every
/// connector of the part.
pub open spec fn along_bar(ck: Seq<ConnKind>, p: int, m: int, mc: int, nt: int, npos: int) -> Seq<Candidate>
    decreases npos,
{
    if npos <= 0 {
        Seq::empty()
    } else {
        along_bar(ck, p, m, mc, nt, npos - 1) + clip_targets(ck, p, m, mc, npos - 1, nt, ck.len() as int)
    }
}

/// The candidates of part `p` (connector kinds `ck`) at connector `mc` (of
/// kind `mk`) of placement `m`.
pub open spec fn conn_block(ck: Seq<ConnKind>, mk: ConnKind, p: int, m: int, mc: int, nt: int) -> Seq<Candidate> {
    match mk {
        ConnKind::SnapConn { is_a } => snap_targets(ck, is_a, p, m, mc, nt, ck.len() as int),
        ConnKind::ClipConn => bar_targets(ck, p, m, mc, nt, ck.len() as int),
        ConnKind::BarConn { steps } => along_bar(ck, p, m, mc, nt, steps + 1),
    }
}

/// The candidates of part `p` at the first `n` connectors (kinds `mks`) of
/// placement `m`.
pub open spec fn anchor_block(
    ck: Seq<ConnKind>,
    mks: Seq<ConnKind>,
    p: int,
    m: int,
    nt: int,
    n: int,
) -> Seq<Candidate>
    decreases n,
{
    if n <= 0 {
        Seq::empty()
    } else {
        anchor_block(ck, mks, p, m, nt, n - 1) + conn_block(ck, mks[n - 1], p, m, n - 1, nt)
    }
}

impl AssemblyGraph {
    /// The parts that a query considers, in order.
    pub open spec fn query_parts(&self, q: Query) -> Seq<usize> {
        match q.part_id {
            Some(p) => seq![p],
            None => Seq::new(self.parts@.len(), |i: int| i as usize),
        }
    }

    /// The placements that a query attaches to, in order.
    pub open spec fn query_anchors(&self, q: Query) -> Seq<usize> {
        match q.anchor_idx {
            Some(a) => seq![a],
            None => Seq::new(self.placement_parts@.len(), |i: int| i as usize),
        }
    }

    /// The candidates of part `p` at the first `n` anchors.
    pub open spec fn part_block(&self, p: int, anchors: Seq<usize>, nt: int, n: int) -> Seq<Candidate>
        decreases n,
    {
        if n <= 0 {
            Seq::empty()
        } else {
            let m = anchors[n - 1] as int;
            let mks = self.placement_kinds()[m];
            self.part_block(p, anchors, nt, n - 1) + anchor_block(
                part_kinds(self.parts@, p),
                mks,
                p,
                m,
                nt,
                mks.len() as int,
            )
        }
    }

    /// The candidates of the first `n` of the query's parts.
    pub open spec fn plan_upto(&self, q: Query, nt: int, n: int) -> Seq<Candidate>
        decreases n,
    {
        if n <= 0 {
            Seq::empty()
        } else {
            let anchors = self.query_anchors(q);
            self.plan_upto(q, nt, n - 1) + self.part_block(
                self.query_parts(q)[n - 1] as int,
                anchors,
                nt,
                anchors.len() as int,
            )
        }
    }

    /// Every candidate placement for query `q` with `nt` turns per attachment,
    /// in the order in which they are tried: part by part, then placement by
    /// placement, then connector by connector of the placement. A snap
    /// connector meets the part's snap connectors of the other gender; a clip
    /// meets each position of each of the part's bars; each position of a bar
    /// meets each of the part's clips. Each meeting is tried at every turn.
    /// An empty model has no candidates.
    pub open spec fn plan(&self, q: Query, nt: int) -> Seq<Candidate> {
        if self.placement_parts@.len() == 0 {
            Seq::empty()
        } else {
            self.plan_upto(q, nt, self.query_parts(q).len() as int)
        }
    }

    /// The query names only parts and placements that exist, wherever it
    /// would be used, and the placements it attaches to are of existing parts.
    /// Nothing is looked up in an empty model, and no placement is looked up
    /// when there is no part to try.
    pub open spec fn query_ok(&self, q: Query) -> bool {
        self.placement_parts@.len() > 0 ==> {
            &&& (q.part_id matches Some(p) ==> p < self.parts@.len())
            &&& (self.query_parts(q).len() > 0 ==> forall|j: int|
                0 <= j < self.query_anchors(q).len() ==> #[trigger] self.query_anchors(q)[j]
                    < self.placement_parts@.len() && self.placement_parts@[self.query_anchors(q)[j] as int]
                    < self.parts@.len())
        }
    }
}


fn push_turns(res: &mut Vec<Candidate>, p: usize, m: usize, mc: usize, cc: usize, pos: u32, nt: u32)
    ensures
        final(res)@ == old(res)@ + turns(p as int, m as int, mc as int, cc as int, pos as int, nt as int),
{
    let ghost before = res@;
    for r in 0..nt
        invariant
            res@ == before + turns(p as int, m as int, mc as int, cc as int, pos as int, r as int),
    {
        res.push(Candidate { part_index: p, anchor_idx: m, anchor_conn: mc, part_conn: cc, bar_pos: pos, turn: r });
        assert(turns(p as int, m as int, mc as int, cc as int, pos as int, r + 1) =~= turns(
            p as int,
            m as int,
            mc as int,
            cc as int,
            pos as int,
            r as int,
        ).push(cand(p as int, m as int, mc as int, cc as int, pos as int, r as int)));
        assert(res@ =~= before + turns(p as int, m as int, mc as int, cc as int, pos as int, r + 1));
    }
}

fn push_snap_targets(
    res: &mut Vec<Candidate>,
    ck: &Vec<ConnKind>,
    m_is_a: bool,
    p: usize,
    m: usize,
    mc: usize,
    nt: u32,
)
    ensures
        final(res)@ == old(res)@ + snap_targets(ck@, m_is_a, p as int, m as int, mc as int, nt as int, ck@.len() as int),
{
    let ghost before = res@;
    for cc in 0..ck.len()
        invariant
            res@ == before + snap_targets(ck@, m_is_a, p as int, m as int, mc as int, nt as int, cc as int),
    {
        let ghost mid = res@;
        match ck[cc] {
            ConnKind::SnapConn { is_a } => {
                if is_a != m_is_a {
                    push_turns(res, p, m, mc, cc, 0, nt);
                }
            },
            _ => {},
        }
        assert(res@ =~= before + snap_targets(ck@, m_is_a, p as int, m as int, mc as int, nt as int, cc + 1));
    }
}

fn push_bar_slots(res: &mut Vec<Candidate>, p: usize, m: usize, mc: usize, cc: usize, nt: u32, steps: u32)
    ensures
        final(res)@ == old(res)@ + bar_slots(p as int, m as int, mc as int, cc as int, nt as int, steps + 1),
{
    let ghost before = res@;
    let npos: u64 = steps as u64 + 1;
    for pos in 0..npos
        invariant
            npos == steps + 1,
            res@ == before + bar_slots(p as int, m as int, mc as int, cc as int, nt as int, pos as int),
    {
        push_turns(res, p, m, mc, cc, pos as u32, nt);
        assert(res@ =~= before + bar_slots(p as int, m as int, mc as int, cc as int, nt as int, pos + 1));
    }
}

fn push_bar_targets(res: &mut Vec<Candidate>, ck: &Vec<ConnKind>, p: usize, m: usize, mc: usize, nt: u32)
    ensures
        final(res)@ == old(res)@ + bar_targets(ck@, p as int, m as int, mc as int, nt as int, ck@.len() as int),
{
    let ghost before = res@;
    for cc in 0..ck.len()
        invariant
            res@ == before + bar_targets(ck@, p as int, m as int, mc as int, nt as int, cc as int),
    {
        match ck[cc] {
            ConnKind::BarConn { steps } => {
                push_bar_slots(res, p, m, mc, cc, nt, steps);
            },
            _ => {},
        }
        assert(res@ =~= before + bar_targets(ck@, p as int, m as int, mc as int, nt as int, cc + 1));
    }
}

fn push_clip_targets(
    res: &mut Vec<Candidate>,
    ck: &Vec<ConnKind>,
    p: usize,
    m: usize,
    mc: usize,
    pos: u32,
    nt: u32,
)
    ensures
        final(res)@ == old(res)@ + clip_targets(ck@, p as int, m as int, mc as int, pos as int, nt as int, ck@.len() as int),
{
    let ghost before = res@;
    for cc in 0..ck.len()
        invariant
            res@ == before + clip_targets(ck@, p as int, m as int, mc as int, pos as int, nt as int, cc as int),
    {
        match ck[cc] {
            ConnKind::ClipConn => {
                push_turns(res, p, m, mc, cc, pos, nt);
            },
            _ => {},
        }
        assert(res@ =~= before + clip_targets(ck@, p as int, m as int, mc as int, pos as int, nt as int, cc + 1));
    }
}

fn push_along_bar(res: &mut Vec<Candidate>, ck: &Vec<ConnKind>, p: usize, m: usize, mc: usize, nt: u32, steps: u32)
    ensures
        final(res)@ == old(res)@ + along_bar(ck@, p as int, m as int, mc as int, nt as int, steps + 1),
{
    let ghost before = res@;
    let npos: u64 = steps as u64 + 1;
    for pos in 0..npos
        invariant
            npos == steps + 1,
            res@ == before + along_bar(ck@, p as int, m as int, mc as int, nt as int, pos as int),
    {
        push_clip_targets(res, ck, p, m, mc, pos as u32, nt);
        assert(res@ =~= before + along_bar(ck@, p as int, m as int, mc as int, nt as int, pos + 1));
    }
}

fn push_conn_block(res: &mut Vec<Candidate>, ck: &Vec<ConnKind>, mk: ConnKind, p: usize, m: usize, mc: usize, nt: u32)
    ensures
        final(res)@ == old(res)@ + conn_block(ck@, mk, p as int, m as int, mc as int, nt as int),
{
    match mk {
        ConnKind::SnapConn { is_a } => push_snap_targets(res, ck, is_a, p, m, mc, nt),
        ConnKind::ClipConn => push_bar_targets(res, ck, p, m, mc, nt),
        ConnKind::BarConn { steps } => push_along_bar(res, ck, p, m, mc, nt, steps),
    }
}

fn push_anchor_block(res: &mut Vec<Candidate>, ck: &Vec<ConnKind>, mks: &Vec<ConnKind>, p: usize, m: usize, nt: u32)
    ensures
        final(res)@ == old(res)@ + anchor_block(ck@, mks@, p as int, m as int, nt as int, mks@.len() as int),
{
    let ghost before = res@;
    for mc in 0..mks.len()
        invariant
            res@ == before + anchor_block(ck@, mks@, p as int, m as int, nt as int, mc as int),
    {
        push_conn_block(res, ck, mks[mc], p, m, mc, nt);
        assert(res@ =~= before + anchor_block(ck@, mks@, p as int, m as int, nt as int, mc + 1));
    }
}

impl AssemblyGraph {
    /// Lists every candidate placement for `query`, with `num_turns` turns
    /// per attachment, in the order in which they are tried (see [`AssemblyGraph::plan`]).
    pub fn plan_candidates(&self, query: &Query, num_turns: u32) -> (res: Vec<Candidate>)
        requires
            self.query_ok(*query),
        ensures
            res@ == self.plan(*query, num_turns as int),
            forall|i: int|
                0 <= i < res@.len() ==> self.candidate_ok(#[trigger] res@[i], num_turns as int)
                    && self.respects(res@[i], *query),
            forall|c: Candidate|
                self.placement_parts@.len() > 0 && #[trigger] self.candidate_ok(c, num_turns as int)
                    && self.respects(c, *query) ==> res@.contains(c),
    {
        proof {
            lemma_plan_sound(*self, *query, num_turns as int);
            assert forall|c: Candidate|
                self.placement_parts@.len() > 0 && #[trigger] self.candidate_ok(c, num_turns as int)
                    && self.respects(c, *query) implies self.plan(*query, num_turns as int).contains(c) by {
                lemma_plan_complete(*self, *query, c, num_turns as int);
            }
        }
        let mut res: Vec<Candidate> = Vec::new();
        if self.placement_parts.len() == 0 {
            return res;
        }
        let ghost nt = num_turns as int;
        let mut part_ids: Vec<usize> = Vec::new();
        match query.part_id {
            Some(p) => part_ids.push(p),
            None => {
                for i in 0..self.parts.len()
                    invariant
                        part_ids@ =~= Seq::new(i as nat, |k: int| k as usize),
                {
                    part_ids.push(i);
                }
            },
        }
        assert(part_ids@ =~= self.query_parts(*query));
        let mut anchors: Vec<usize> = Vec::new();
        match query.anchor_idx {
            Some(a) => anchors.push(a),
            None => {
                for i in 0..self.placement_parts.len()
                    invariant
                        anchors@ =~= Seq::new(i as nat, |k: int| k as usize),
                {
                    anchors.push(i);
                }
            },
        }
        assert(anchors@ =~= self.query_anchors(*query));
        for j in 0..part_ids.len()
            invariant
                self.query_ok(*query),
                self.placement_parts@.len() > 0,
                nt == num_turns as int,
                part_ids@ == self.query_parts(*query),
                anchors@ == self.query_anchors(*query),
                res@ == self.plan_upto(*query, nt, j as int),
        {
            let p = part_ids[j];
            let ck = &self.parts[p].connectors;
            let ghost before = res@;
            for a in 0..anchors.len()
                invariant
                    self.query_ok(*query),
                    self.placement_parts@.len() > 0,
                    nt == num_turns as int,
                    j < part_ids@.len(),
                    p == part_ids@[j as int],
                    p < self.parts@.len(),
                    ck@ == part_kinds(self.parts@, p as int),
                    part_ids@ == self.query_parts(*query),
                    anchors@ == self.query_anchors(*query),
                    before == self.plan_upto(*query, nt, j as int),
                    res@ == before + self.part_block(p as int, anchors@, nt, a as int),
            {
                let m = anchors[a];
                assert(self.query_anchors(*query)[a as int] == m);
                let mks = &self.parts[self.placement_parts[m]].connectors;
                assert(mks@ == self.placement_kinds()[m as int]);
                push_anchor_block(&mut res, ck, mks, p, m, num_turns);
                assert(res@ =~= before + self.part_block(p as int, anchors@, nt, a + 1));
            }
        }
        res
    }
}


/// The number of bar steps that bounds `bar_pos` when connectors of kinds
/// `a` and `b` meet: that of whichever is a bar, and 0 for two snaps.
pub open spec fn bar_steps(a: ConnKind, b: ConnKind) -> int {
    match (a, b) {
        (ConnKind::BarConn { steps }, _) => steps as int,
        (_, ConnKind::BarConn { steps }) => steps as int,
        _ => 0,
    }
}

/// Candidate `c` attaches a part with connector kinds `ck` to a placement
/// with connector kinds `mks` by two connectors that may meet, at a turn
/// below `nt` and at a position that exists on the bar involved.
pub open spec fn attaches(c: Candidate, ck: Seq<ConnKind>, mks: Seq<ConnKind>, nt: int) -> bool {
    &&& c.anchor_conn < mks.len()
    &&& c.part_conn < ck.len()
    &&& c.turn < nt
    &&& compatible(mks[c.anchor_conn as int], ck[c.part_conn as int])
    &&& c.bar_pos <= bar_steps(mks[c.anchor_conn as int], ck[c.part_conn as int])
}

/// Every candidate of `s` attaches part `p` to placement `m`.
pub open spec fn block_ok(s: Seq<Candidate>, ck: Seq<ConnKind>, mks: Seq<ConnKind>, p: int, m: int, nt: int) -> bool {
    forall|i: int|
        0 <= i < s.len() ==> (#[trigger] s[i]).part_index == p && s[i].anchor_idx == m && attaches(
            s[i],
            ck,
            mks,
            nt,
        )
}

pub proof fn lemma_block_ok_concat(
    a: Seq<Candidate>,
    b: Seq<Candidate>,
    ck: Seq<ConnKind>,
    mks: Seq<ConnKind>,
    p: int,
    m: int,
    nt: int,
)
    requires
        block_ok(a, ck, mks, p, m, nt),
        block_ok(b, ck, mks, p, m, nt),
    ensures
        block_ok(a + b, ck, mks, p, m, nt),
{
    assert forall|i: int| 0 <= i < (a + b).len() implies (#[trigger] (a + b)[i]).part_index == p && (a
        + b)[i].anchor_idx == m && attaches((a + b)[i], ck, mks, nt) by {
        if i < a.len() {
            assert((a + b)[i] == a[i]);
        } else {
            assert((a + b)[i] == b[i - a.len()]);
        }
    }
}

/// The ranges within which indices survive the casts into a candidate.
pub open spec fn in_range(ck: Seq<ConnKind>, mks: Seq<ConnKind>, p: int, m: int, nt: int) -> bool {
    &&& 0 <= p <= usize::MAX
    &&& 0 <= m <= usize::MAX
    &&& ck.len() <= usize::MAX
    &&& mks.len() <= usize::MAX
    &&& 0 <= nt <= u32::MAX
}

pub proof fn lemma_turns_ok(
    ck: Seq<ConnKind>,
    mks: Seq<ConnKind>,
    p: int,
    m: int,
    mc: int,
    cc: int,
    pos: int,
    nt: int,
)
    requires
        in_range(ck, mks, p, m, nt),
        0 <= mc < mks.len(),
        0 <= cc < ck.len(),
        compatible(mks[mc], ck[cc]),
        0 <= pos <= bar_steps(mks[mc], ck[cc]),
        pos <= u32::MAX,
    ensures
        block_ok(turns(p, m, mc, cc, pos, nt), ck, mks, p, m, nt),
{
}

pub proof fn lemma_snap_targets_ok(
    ck: Seq<ConnKind>,
    mks: Seq<ConnKind>,
    p: int,
    m: int,
    mc: int,
    nt: int,
    n: int,
)
    requires
        in_range(ck, mks, p, m, nt),
        0 <= mc < mks.len(),
        mks[mc] is SnapConn,
        n <= ck.len(),
    ensures
        block_ok(snap_targets(ck, mks[mc]->is_a, p, m, mc, nt, n), ck, mks, p, m, nt),
    decreases n,
{
    if n > 0 {
        lemma_snap_targets_ok(ck, mks, p, m, mc, nt, n - 1);
        let tail = match ck[n - 1] {
            ConnKind::SnapConn { is_a } => if is_a != mks[mc]->is_a {
                turns(p, m, mc, n - 1, 0, nt)
            } else {
                Seq::empty()
            },
            _ => Seq::empty(),
        };
        if ck[n - 1] is SnapConn && ck[n - 1]->is_a != mks[mc]->is_a {
            lemma_turns_ok(ck, mks, p, m, mc, n - 1, 0, nt);
        }
        lemma_block_ok_concat(snap_targets(ck, mks[mc]->is_a, p, m, mc, nt, n - 1), tail, ck, mks, p, m, nt);
    }
}

pub proof fn lemma_bar_slots_ok(
    ck: Seq<ConnKind>,
    mks: Seq<ConnKind>,
    p: int,
    m: int,
    mc: int,
    cc: int,
    nt: int,
    npos: int,
)
    requires
        in_range(ck, mks, p, m, nt),
        0 <= mc < mks.len(),
        0 <= cc < ck.len(),
        mks[mc] is ClipConn,
        ck[cc] is BarConn,
        npos <= ck[cc]->steps + 1,
    ensures
        block_ok(bar_slots(p, m, mc, cc, nt, npos), ck, mks, p, m, nt),
    decreases npos,
{
    if npos > 0 {
        lemma_bar_slots_ok(ck, mks, p, m, mc, cc, nt, npos - 1);
        lemma_turns_ok(ck, mks, p, m, mc, cc, npos - 1, nt);
        lemma_block_ok_concat(
            bar_slots(p, m, mc, cc, nt, npos - 1),
            turns(p, m, mc, cc, npos - 1, nt),
            ck,
            mks,
            p,
            m,
            nt,
        );
    }
}

pub proof fn lemma_bar_targets_ok(
    ck: Seq<ConnKind>,
    mks: Seq<ConnKind>,
    p: int,
    m: int,
    mc: int,
    nt: int,
    n: int,
)
    requires
        in_range(ck, mks, p, m, nt),
        0 <= mc < mks.len(),
        mks[mc] is ClipConn,
        n <= ck.len(),
    ensures
        block_ok(bar_targets(ck, p, m, mc, nt, n), ck, mks, p, m, nt),
    decreases n,
{
    if n > 0 {
        lemma_bar_targets_ok(ck, mks, p, m, mc, nt, n - 1);
        let tail = match ck[n - 1] {
            ConnKind::BarConn { steps } => bar_slots(p, m, mc, n - 1, nt, steps + 1),
            _ => Seq::empty(),
        };
        if ck[n - 1] is BarConn {
            lemma_bar_slots_ok(ck, mks, p, m, mc, n - 1, nt, ck[n - 1]->steps + 1);
        }
        lemma_block_ok_concat(bar_targets(ck, p, m, mc, nt, n - 1), tail, ck, mks, p, m, nt);
    }
}

pub proof fn lemma_clip_targets_ok(
    ck: Seq<ConnKind>,
    mks: Seq<ConnKind>,
    p: int,
    m: int,
    mc: int,
    pos: int,
    nt: int,
    n: int,
)
    requires
        in_range(ck, mks, p, m, nt),
        0 <= mc < mks.len(),
        mks[mc] is BarConn,
        0 <= pos <= mks[mc]->steps,
        n <= ck.len(),
    ensures
        block_ok(clip_targets(ck, p, m, mc, pos, nt, n), ck, mks, p, m, nt),
    decreases n,
{
    if n > 0 {
        lemma_clip_targets_ok(ck, mks, p, m, mc, pos, nt, n - 1);
        let tail = match ck[n - 1] {
            ConnKind::ClipConn => turns(p, m, mc, n - 1, pos, nt),
            _ => Seq::empty(),
        };
        if ck[n - 1] is ClipConn {
            lemma_turns_ok(ck, mks, p, m, mc, n - 1, pos, nt);
        }
        lemma_block_ok_concat(clip_targets(ck, p, m, mc, pos, nt, n - 1), tail, ck, mks, p, m, nt);
    }
}

pub proof fn lemma_along_bar_ok(
    ck: Seq<ConnKind>,
    mks: Seq<ConnKind>,
    p: int,
    m: int,
    mc: int,
    nt: int,
    npos: int,
)
    requires
        in_range(ck, mks, p, m, nt),
        0 <= mc < mks.len(),
        mks[mc] is BarConn,
        npos <= mks[mc]->steps + 1,
    ensures
        block_ok(along_bar(ck, p, m, mc, nt, npos), ck, mks, p, m, nt),
    decreases npos,
{
    if npos > 0 {
        lemma_along_bar_ok(ck, mks, p, m, mc, nt, npos - 1);
        lemma_clip_targets_ok(ck, mks, p, m, mc, npos - 1, nt, ck.len() as int);
        lemma_block_ok_concat(
            along_bar(ck, p, m, mc, nt, npos - 1),
            clip_targets(ck, p, m, mc, npos - 1, nt, ck.len() as int),
            ck,
            mks,
            p,
            m,
            nt,
        );
    }
}

pub proof fn lemma_anchor_block_ok(ck: Seq<ConnKind>, mks: Seq<ConnKind>, p: int, m: int, nt: int, n: int)
    requires
        in_range(ck, mks, p, m, nt),
        n <= mks.len(),
    ensures
        block_ok(anchor_block(ck, mks, p, m, nt, n), ck, mks, p, m, nt),
    decreases n,
{
    if n > 0 {
        let mc = n - 1;
        lemma_anchor_block_ok(ck, mks, p, m, nt, n - 1);
        match mks[mc] {
            ConnKind::SnapConn { is_a } => lemma_snap_targets_ok(ck, mks, p, m, mc, nt, ck.len() as int),
            ConnKind::ClipConn => lemma_bar_targets_ok(ck, mks, p, m, mc, nt, ck.len() as int),
            ConnKind::BarConn { steps } => lemma_along_bar_ok(ck, mks, p, m, mc, nt, steps + 1),
        }
        lemma_block_ok_concat(
            anchor_block(ck, mks, p, m, nt, n - 1),
            conn_block(ck, mks[mc], p, m, mc, nt),
            ck,
            mks,
            p,
            m,
            nt,
        );
    }
}


impl AssemblyGraph {
    /// Whether the query names only parts and placements that exist, wherever
    /// it would be used (see [`AssemblyGraph::query_ok`]).
    pub fn query_fits(&self, query: &Query) -> (res: bool)
        ensures
            res == self.query_ok(*query),
    {
        if self.placement_parts.len() == 0 {
            return true;
        }
        let part_ok = match query.part_id {
            Some(p) => p < self.parts.len(),
            None => true,
        };
        if !part_ok {
            return false;
        }
        let some_part = match query.part_id {
            Some(_) => true,
            None => self.parts.len() > 0,
        };
        assert(some_part == (self.query_parts(*query).len() > 0));
        if !some_part {
            return true;
        }
        match query.anchor_idx {
            Some(a) => {
                let ok = a < self.placement_parts.len() && self.placement_parts[a] < self.parts.len();
                assert(self.query_anchors(*query) == seq![a]);
                if !ok {
                    assert(!(self.query_anchors(*query)[0] < self.placement_parts@.len()
                        && self.placement_parts@[self.query_anchors(*query)[0] as int] < self.parts@.len()));
                }
                ok
            },
            None => {
                for i in 0..self.placement_parts.len()
                    invariant
                        query.anchor_idx is None,
                        self.placement_parts@.len() > 0,
                        self.query_parts(*query).len() > 0,
                        forall|x: int| 0 <= x < i ==> #[trigger] self.placement_parts@[x] < self.parts@.len(),
                {
                    if self.placement_parts[i] >= self.parts.len() {
                        assert(self.query_anchors(*query)[i as int] == i);
                        return false;
                    }
                }
                assert forall|j: int| 0 <= j < self.query_anchors(*query).len() implies #[trigger] self.query_anchors(
                    *query,
                )[j] < self.placement_parts@.len() && self.placement_parts@[self.query_anchors(
                    *query,
                )[j] as int] < self.parts@.len() by {
                    assert(self.query_anchors(*query)[j] == j);
                }
                true
            },
        }
    }

    /// Candidate `c` attaches an existing part to an existing placement by two
    /// connectors that may meet, at a turn below `nt`, at an existing bar position.
    pub open spec fn candidate_ok(&self, c: Candidate, nt: int) -> bool {
        &&& c.part_index < self.parts@.len()
        &&& c.anchor_idx < self.placement_parts@.len()
        &&& attaches(
            c,
            part_kinds(self.parts@, c.part_index as int),
            self.placement_kinds()[c.anchor_idx as int],
            nt,
        )
    }

    /// Candidate `c` uses the query's part and the query's anchor, where given.
    pub open spec fn respects(&self, c: Candidate, q: Query) -> bool {
        &&& (q.part_id matches Some(p) ==> c.part_index == p)
        &&& (q.anchor_idx matches Some(a) ==> c.anchor_idx == a)
    }
}

pub proof fn lemma_part_block_ok(g: AssemblyGraph, p: int, anchors: Seq<usize>, nt: int, n: int)
    requires
        0 <= p < g.parts@.len(),
        0 <= nt <= u32::MAX,
        n <= anchors.len(),
        forall|j: int|
            0 <= j < anchors.len() ==> #[trigger] anchors[j] < g.placement_parts@.len()
                && g.placement_parts@[anchors[j] as int] < g.parts@.len(),
    ensures
        forall|i: int|
            0 <= i < g.part_block(p, anchors, nt, n).len() ==> {
                let c = #[trigger] g.part_block(p, anchors, nt, n)[i];
                &&& c.part_index == p
                &&& anchors.contains(c.anchor_idx)
                &&& g.candidate_ok(c, nt)
            },
    decreases n,
{
    if n > 0 {
        lemma_part_block_ok(g, p, anchors, nt, n - 1);
        let m = anchors[n - 1] as int;
        let mks = g.placement_kinds()[m];
        let ck = part_kinds(g.parts@, p);
        assert(ck.len() <= usize::MAX) by {
            assert(ck.len() == g.parts@[p].connectors.len());
        }
        assert(mks.len() <= usize::MAX) by {
            assert(mks.len() == g.parts@[g.placement_parts@[m] as int].connectors.len());
        }
        assert(g.parts@.len() == g.parts.len());
        assert(g.placement_parts@.len() == g.placement_parts.len());
        lemma_anchor_block_ok(ck, mks, p, m, nt, mks.len() as int);
        let a = g.part_block(p, anchors, nt, n - 1);
        let b = anchor_block(ck, mks, p, m, nt, mks.len() as int);
        assert forall|i: int| 0 <= i < (a + b).len() implies {
            let c = #[trigger] (a + b)[i];
            &&& c.part_index == p
            &&& anchors.contains(c.anchor_idx)
            &&& g.candidate_ok(c, nt)
        } by {
            if i < a.len() {
                assert((a + b)[i] == a[i]);
            } else {
                assert((a + b)[i] == b[i - a.len()]);
                assert(anchors[n - 1] == b[i - a.len()].anchor_idx);
            }
        }
    }
}

pub proof fn lemma_plan_upto_ok(g: AssemblyGraph, q: Query, nt: int, n: int)
    requires
        g.query_ok(q),
        g.placement_parts@.len() > 0,
        0 <= nt <= u32::MAX,
        n <= g.query_parts(q).len(),
    ensures
        forall|i: int|
            0 <= i < g.plan_upto(q, nt, n).len() ==> {
                let c = #[trigger] g.plan_upto(q, nt, n)[i];
                &&& g.query_parts(q).contains(c.part_index)
                &&& g.query_anchors(q).contains(c.anchor_idx)
                &&& g.candidate_ok(c, nt)
            },
    decreases n,
{
    if n > 0 {
        lemma_plan_upto_ok(g, q, nt, n - 1);
        let anchors = g.query_anchors(q);
        let p = g.query_parts(q)[n - 1] as int;
        lemma_part_block_ok(g, p, anchors, nt, anchors.len() as int);
        let a = g.plan_upto(q, nt, n - 1);
        let b = g.part_block(p, anchors, nt, anchors.len() as int);
        assert forall|i: int| 0 <= i < (a + b).len() implies {
            let c = #[trigger] (a + b)[i];
            &&& g.query_parts(q).contains(c.part_index)
            &&& g.query_anchors(q).contains(c.anchor_idx)
            &&& g.candidate_ok(c, nt)
        } by {
            if i < a.len() {
                assert((a + b)[i] == a[i]);
            } else {
                assert((a + b)[i] == b[i - a.len()]);
                assert(g.query_parts(q)[n - 1] == b[i - a.len()].part_index);
            }
        }
    }
}

/// Every planned candidate attaches an existing part to an existing
/// placement by two connectors that may meet (snap to snap of the other
/// gender, clip to bar, bar to clip), at one of the configured turns and at an
/// existing position of the bar involved; and it uses the query's part and
/// anchor where the query gives them.
pub proof fn lemma_plan_sound(g: AssemblyGraph, q: Query, nt: int)
    requires
        g.query_ok(q),
        0 <= nt <= u32::MAX,
    ensures
        forall|i: int|
            0 <= i < g.plan(q, nt).len() ==> g.candidate_ok(#[trigger] g.plan(q, nt)[i], nt) && g.respects(
                g.plan(q, nt)[i],
                q,
            ),
{
    if g.placement_parts@.len() > 0 {
        lemma_plan_upto_ok(g, q, nt, g.query_parts(q).len() as int);
        assert forall|i: int| 0 <= i < g.plan(q, nt).len() implies g.candidate_ok(
            #[trigger] g.plan(q, nt)[i],
            nt,
        ) && g.respects(g.plan(q, nt)[i], q) by {
            let c = g.plan(q, nt)[i];
            if q.part_id is Some {
                assert(g.query_parts(q).contains(c.part_index));
                assert(g.query_parts(q) == seq![q.part_id->0]);
            }
            if q.anchor_idx is Some {
                assert(g.query_anchors(q).contains(c.anchor_idx));
                assert(g.query_anchors(q) == seq![q.anchor_idx->0]);
            }
        }
    }
}

/// Candidate `c` attaches part `p` at connector `mc` of placement `m`.
pub open spec fn at(c: Candidate, p: int, m: int, mc: int) -> bool {
    c.part_index == p && c.anchor_idx == m && c.anchor_conn == mc
}

pub proof fn lemma_in_concat(a: Seq<Candidate>, b: Seq<Candidate>, c: Candidate)
    requires
        a.contains(c) || b.contains(c),
    ensures
        (a + b).contains(c),
{
    if a.contains(c) {
        let i = choose|i: int| 0 <= i < a.len() && a[i] == c;
        assert((a + b)[i] == c);
    } else {
        let i = choose|i: int| 0 <= i < b.len() && b[i] == c;
        assert((a + b)[a.len() + i] == c);
    }
}

pub proof fn lemma_in_turns(c: Candidate, p: int, m: int, mc: int, nt: int)
    requires
        at(c, p, m, mc),
        c.turn < nt,
    ensures
        turns(p, m, mc, c.part_conn as int, c.bar_pos as int, nt).contains(c),
{
    let t = turns(p, m, mc, c.part_conn as int, c.bar_pos as int, nt);
    assert(t[c.turn as int] == c);
}

pub proof fn lemma_in_snap_targets(ck: Seq<ConnKind>, m_is_a: bool, c: Candidate, p: int, m: int, mc: int, nt: int, n: int)
    requires
        at(c, p, m, mc),
        c.turn < nt,
        c.part_conn < n,
        n <= ck.len(),
        ck[c.part_conn as int] matches ConnKind::SnapConn { is_a } && is_a != m_is_a,
        c.bar_pos == 0,
    ensures
        snap_targets(ck, m_is_a, p, m, mc, nt, n).contains(c),
    decreases n,
{
    let tail = match ck[n - 1] {
        ConnKind::SnapConn { is_a } => if is_a != m_is_a {
            turns(p, m, mc, n - 1, 0, nt)
        } else {
            Seq::empty()
        },
        _ => Seq::empty(),
    };
    if c.part_conn == n - 1 {
        lemma_in_turns(c, p, m, mc, nt);
        lemma_in_concat(snap_targets(ck, m_is_a, p, m, mc, nt, n - 1), tail, c);
    } else {
        lemma_in_snap_targets(ck, m_is_a, c, p, m, mc, nt, n - 1);
        lemma_in_concat(snap_targets(ck, m_is_a, p, m, mc, nt, n - 1), tail, c);
    }
}

pub proof fn lemma_in_bar_slots(c: Candidate, p: int, m: int, mc: int, nt: int, npos: int)
    requires
        at(c, p, m, mc),
        c.turn < nt,
        c.bar_pos < npos,
    ensures
        bar_slots(p, m, mc, c.part_conn as int, nt, npos).contains(c),
    decreases npos,
{
    let cc = c.part_conn as int;
    if c.bar_pos == npos - 1 {
        lemma_in_turns(c, p, m, mc, nt);
    } else {
        lemma_in_bar_slots(c, p, m, mc, nt, npos - 1);
    }
    lemma_in_concat(bar_slots(p, m, mc, cc, nt, npos - 1), turns(p, m, mc, cc, npos - 1, nt), c);
}

pub proof fn lemma_in_bar_targets(ck: Seq<ConnKind>, c: Candidate, p: int, m: int, mc: int, nt: int, n: int)
    requires
        at(c, p, m, mc),
        c.turn < nt,
        c.part_conn < n,
        n <= ck.len(),
        ck[c.part_conn as int] matches ConnKind::BarConn { steps } && c.bar_pos <= steps,
    ensures
        bar_targets(ck, p, m, mc, nt, n).contains(c),
    decreases n,
{
    let tail = match ck[n - 1] {
        ConnKind::BarConn { steps } => bar_slots(p, m, mc, n - 1, nt, steps + 1),
        _ => Seq::empty(),
    };
    if c.part_conn == n - 1 {
        lemma_in_bar_slots(c, p, m, mc, nt, ck[n - 1]->steps + 1);
    } else {
        lemma_in_bar_targets(ck, c, p, m, mc, nt, n - 1);
    }
    lemma_in_concat(bar_targets(ck, p, m, mc, nt, n - 1), tail, c);
}

pub proof fn lemma_in_clip_targets(ck: Seq<ConnKind>, c: Candidate, p: int, m: int, mc: int, nt: int, n: int)
    requires
        at(c, p, m, mc),
        c.turn < nt,
        c.part_conn < n,
        n <= ck.len(),
        ck[c.part_conn as int] is ClipConn,
    ensures
        clip_targets(ck, p, m, mc, c.bar_pos as int, nt, n).contains(c),
    decreases n,
{
    let pos = c.bar_pos as int;
    let tail = match ck[n - 1] {
        ConnKind::ClipConn => turns(p, m, mc, n - 1, pos, nt),
        _ => Seq::empty(),
    };
    if c.part_conn == n - 1 {
        lemma_in_turns(c, p, m, mc, nt);
    } else {
        lemma_in_clip_targets(ck, c, p, m, mc, nt, n - 1);
    }
    lemma_in_concat(clip_targets(ck, p, m, mc, pos, nt, n - 1), tail, c);
}

pub proof fn lemma_in_along_bar(ck: Seq<ConnKind>, c: Candidate, p: int, m: int, mc: int, nt: int, npos: int)
    requires
        at(c, p, m, mc),
        c.turn < nt,
        c.part_conn < ck.len(),
        ck[c.part_conn as int] is ClipConn,
        c.bar_pos < npos,
    ensures
        along_bar(ck, p, m, mc, nt, npos).contains(c),
    decreases npos,
{
    if c.bar_pos == npos - 1 {
        lemma_in_clip_targets(ck, c, p, m, mc, nt, ck.len() as int);
    } else {
        lemma_in_along_bar(ck, c, p, m, mc, nt, npos - 1);
    }
    lemma_in_concat(along_bar(ck, p, m, mc, nt, npos - 1), clip_targets(ck, p, m, mc, npos - 1, nt, ck.len() as int), c);
}

pub proof fn lemma_in_anchor_block(ck: Seq<ConnKind>, mks: Seq<ConnKind>, c: Candidate, p: int, m: int, nt: int, n: int)
    requires
        c.part_index == p,
        c.anchor_idx == m,
        c.anchor_conn < n,
        n <= mks.len(),
        attaches(c, ck, mks, nt),
    ensures
        anchor_block(ck, mks, p, m, nt, n).contains(c),
    decreases n,
{
    let mc = n - 1;
    let tail = conn_block(ck, mks[mc], p, m, mc, nt);
    if c.anchor_conn == mc {
        match mks[mc] {
            ConnKind::SnapConn { is_a } => lemma_in_snap_targets(ck, is_a, c, p, m, mc, nt, ck.len() as int),
            ConnKind::ClipConn => lemma_in_bar_targets(ck, c, p, m, mc, nt, ck.len() as int),
            ConnKind::BarConn { steps } => lemma_in_along_bar(ck, c, p, m, mc, nt, steps + 1),
        }
    } else {
        lemma_in_anchor_block(ck, mks, c, p, m, nt, n - 1);
    }
    lemma_in_concat(anchor_block(ck, mks, p, m, nt, n - 1), tail, c);
}

pub proof fn lemma_in_part_block(g: AssemblyGraph, c: Candidate, p: int, anchors: Seq<usize>, nt: int, n: int, j: int)
    requires
        c.part_index == p,
        0 <= j < n <= anchors.len(),
        anchors[j] == c.anchor_idx,
        g.candidate_ok(c, nt),
    ensures
        g.part_block(p, anchors, nt, n).contains(c),
    decreases n,
{
    let m = anchors[n - 1] as int;
    let mks = g.placement_kinds()[m];
    let tail = anchor_block(part_kinds(g.parts@, p), mks, p, m, nt, mks.len() as int);
    if j == n - 1 {
        lemma_in_anchor_block(part_kinds(g.parts@, p), mks, c, p, m, nt, mks.len() as int);
    } else {
        lemma_in_part_block(g, c, p, anchors, nt, n - 1, j);
    }
    lemma_in_concat(g.part_block(p, anchors, nt, n - 1), tail, c);
}

pub proof fn lemma_in_plan_upto(g: AssemblyGraph, q: Query, c: Candidate, nt: int, n: int, k: int, j: int)
    requires
        0 <= k < n <= g.query_parts(q).len(),
        g.query_parts(q)[k] == c.part_index,
        0 <= j < g.query_anchors(q).len(),
        g.query_anchors(q)[j] == c.anchor_idx,
        g.candidate_ok(c, nt),
    ensures
        g.plan_upto(q, nt, n).contains(c),
    decreases n,
{
    let anchors = g.query_anchors(q);
    let tail = g.part_block(g.query_parts(q)[n - 1] as int, anchors, nt, anchors.len() as int);
    if k == n - 1 {
        lemma_in_part_block(g, c, c.part_index as int, anchors, nt, anchors.len() as int, j);
    } else {
        lemma_in_plan_upto(g, q, c, nt, n - 1, k, j);
    }
    lemma_in_concat(g.plan_upto(q, nt, n - 1), tail, c);
}

/// The plan misses nothing: on a non-empty model, every candidate that
/// attaches an existing part to an existing placement by two connectors that
/// may meet, at one of the `nt` turns and at an existing bar position, and
/// that uses the query's part and anchor where given, is in the plan.
pub proof fn lemma_plan_complete(g: AssemblyGraph, q: Query, c: Candidate, nt: int)
    requires
        g.placement_parts@.len() > 0,
        g.candidate_ok(c, nt),
        g.respects(c, q),
    ensures
        g.plan(q, nt).contains(c),
{
    let k = match q.part_id {
        Some(p) => 0int,
        None => c.part_index as int,
    };
    let j = match q.anchor_idx {
        Some(a) => 0int,
        None => c.anchor_idx as int,
    };
    lemma_in_plan_upto(g, q, c, nt, g.query_parts(q).len() as int, k, j);
}

} // verus!
