use vstd::prelude::*;

use crate::engine::AssemblyGraph;

verus! {

/// Marks entries first to last: entry `j` is marked if `init[j]` holds or an
/// earlier entry that stays unmarked is related to it by `rel`. The result
/// has the first `n` marks.
pub open spec fn sweep(init: Seq<bool>, rel: spec_fn(int, int) -> bool, n: int) -> Seq<bool>
    decreases n,
{
    if n <= 0 {
        Seq::empty()
    } else {
        let prev = sweep(init, rel, n - 1);
        prev.push(init[n - 1] || exists|i: int| 0 <= i < n - 1 && !prev[i] && #[trigger] rel(i, n - 1))
    }
}

/// Later marks never change earlier ones.
pub proof fn lemma_sweep_prefix(init: Seq<bool>, rel: spec_fn(int, int) -> bool, m: int, n: int)
    requires
        0 <= m <= n,
    ensures
        sweep(init, rel, n).len() == n,
        sweep(init, rel, n).take(m) == sweep(init, rel, m),
    decreases n,
{
    if n > 0 {
        lemma_sweep_prefix(init, rel, n - 1, n - 1);
        if m < n {
            lemma_sweep_prefix(init, rel, m, n - 1);
            assert(sweep(init, rel, n).take(m) =~= sweep(init, rel, n - 1).take(m));
        } else {
            assert(sweep(init, rel, n).take(m) =~= sweep(init, rel, n));
        }
    } else {
        assert(sweep(init, rel, n).take(m) =~= sweep(init, rel, m));
    }
}

/// No two entries left unmarked by a sweep are related (the earlier one
/// first), and each entry is marked exactly when it was marked to begin with
/// or an earlier unmarked entry is related to it.
pub proof fn lemma_sweep_survivors(init: Seq<bool>, rel: spec_fn(int, int) -> bool, n: int)
    requires
        0 <= n,
    ensures
        forall|i: int, j: int|
            0 <= i < j < n && !sweep(init, rel, n)[i] && !sweep(init, rel, n)[j] ==> !rel(i, j),
        forall|j: int|
            0 <= j < n ==> (#[trigger] sweep(init, rel, n)[j] <==> (init[j] || exists|i: int|
                0 <= i < j && !sweep(init, rel, n)[i] && #[trigger] rel(i, j))),
{
    let s = sweep(init, rel, n);
    assert forall|j: int| 0 <= j < n implies (#[trigger] s[j] <==> (init[j] || exists|i: int|
        0 <= i < j && !s[i] && #[trigger] rel(i, j))) by {
        lemma_sweep_prefix(init, rel, j + 1, n);
        lemma_sweep_prefix(init, rel, j, j + 1);
        let sj = sweep(init, rel, j);
        assert(s[j] == sweep(init, rel, j + 1)[j]);
        assert forall|i: int| 0 <= i < j implies s[i] == sj[i] by {
            assert(s.take(j + 1)[i] == s[i]);
            assert(sweep(init, rel, j + 1).take(j)[i] == sj[i]);
        }
    }
    assert forall|i: int, j: int| 0 <= i < j < n && !s[i] && !s[j] implies !rel(i, j) by {
        if rel(i, j) {
            assert(s[j]);
        }
    }
}

/// Candidates `i` and `j` are redundant: the same part, and the geometric
/// verdict `close[i][j]` (same position and rotation) holds.
pub open spec fn redundant_rel(part_of: Seq<usize>, close: Seq<Seq<bool>>) -> spec_fn(int, int) -> bool {
    |i: int, j: int| part_of[i] == part_of[j] && close[i][j]
}

pub open spec fn grid_view(g: Vec<Vec<bool>>) -> Seq<Seq<bool>> {
    g@.map_values(|r: Vec<bool>| r@)
}

/// Marks the candidates that repeat an earlier unmarked one: same part and,
/// by `close[i][j]`, the same position and rotation. `part_of[i]` is the part
/// of candidate `i`.
pub fn redundant_mask(part_of: &Vec<usize>, close: &Vec<Vec<bool>>) -> (res: Vec<bool>)
    requires
        close@.len() == part_of@.len(),
        forall|i: int| 0 <= i < close@.len() ==> (#[trigger] close@[i])@.len() == part_of@.len(),
    ensures
        res@ == sweep(
            Seq::new(part_of@.len(), |i: int| false),
            redundant_rel(part_of@, grid_view(*close)),
            part_of@.len() as int,
        ),
        forall|i: int, j: int|
            0 <= i < j < part_of@.len() && !res@[i] && !res@[j] ==> !(part_of@[i] == part_of@[j]
                && close@[i]@[j]),
{
    proof {
        lemma_sweep_survivors(
            Seq::new(part_of@.len(), |i: int| false),
            redundant_rel(part_of@, grid_view(*close)),
            part_of@.len() as int,
        );
        assert forall|i: int| 0 <= i < part_of@.len() implies #[trigger] grid_view(*close)[i] == close@[i]@ by {}
    }
    let ghost init = Seq::new(part_of@.len(), |i: int| false);
    let ghost rel = redundant_rel(part_of@, grid_view(*close));
    let n = part_of.len();
    let mut res: Vec<bool> = Vec::new();
    for j in 0..n
        invariant
            n == part_of@.len(),
            init == Seq::new(part_of@.len(), |i: int| false),
            rel == redundant_rel(part_of@, grid_view(*close)),
            close@.len() == n,
            forall|i: int| 0 <= i < close@.len() ==> (#[trigger] close@[i])@.len() == n,
            res@ == sweep(init, rel, j as int),
    {
        let ghost prev = res@;
        proof {
            lemma_sweep_prefix(init, rel, j as int, j as int);
        }
        let mut marked = false;
        for i in 0..j
            invariant
                j < n,
                n == part_of@.len(),
                rel == redundant_rel(part_of@, grid_view(*close)),
                close@.len() == n,
                forall|i: int| 0 <= i < close@.len() ==> (#[trigger] close@[i])@.len() == n,
                prev == res@,
                prev.len() == j,
                marked == exists|k: int| 0 <= k < i && !prev[k] && #[trigger] rel(k, j as int),
        {
            assert(grid_view(*close)[i as int] == close@[i as int]@);
            if !res[i] && part_of[i] == part_of[j] && close[i][j] {
                assert(rel(i as int, j as int));
                marked = true;
            }
            assert(marked == exists|k: int| 0 <= k < i + 1 && !prev[k] && #[trigger] rel(k, j as int)) by {
                if exists|k: int| 0 <= k < i + 1 && !prev[k] && #[trigger] rel(k, j as int) {
                    let k = choose|k: int| 0 <= k < i + 1 && !prev[k] && #[trigger] rel(k, j as int);
                    if k == i {
                        assert(grid_view(*close)[i as int][j as int] == close@[i as int]@[j as int]);
                    }
                }
            }
        }
        res.push(marked);
        assert(res@ =~= sweep(init, rel, j + 1));
    }
    res
}

/// The entries of `items` whose mark in `mask` is clear, among the first `n`, in order.
pub open spec fn unmarked<T>(items: Seq<T>, mask: Seq<bool>, n: int) -> Seq<T>
    decreases n,
{
    if n <= 0 {
        Seq::empty()
    } else if mask[n - 1] {
        unmarked(items, mask, n - 1)
    } else {
        unmarked(items, mask, n - 1).push(items[n - 1])
    }
}

/// Keeps the entries of `items` whose mark is clear, in order.
pub fn retain_unmarked<T: Copy>(items: &Vec<T>, mask: &Vec<bool>) -> (res: Vec<T>)
    requires
        mask@.len() == items@.len(),
    ensures
        res@ == unmarked(items@, mask@, items@.len() as int),
{
    let mut res: Vec<T> = Vec::new();
    for i in 0..items.len()
        invariant
            mask@.len() == items@.len(),
            res@ == unmarked(items@, mask@, i as int),
    {
        if !mask[i] {
            res.push(items[i]);
        }
    }
    res
}


/// What geometry says of two candidates of the same part with respect to one
/// axis of rotational symmetry of that part.
#[derive(Debug, Clone, Copy, PartialEq, Eq, Structural)]
pub struct SymProbe {
    /// The axis lies on the same ray in world space for both candidates.
    pub aligned: bool,
    /// The turn between the two candidates about the axis is a whole number
    /// of the axis's symmetric steps (a full turn divided by its number of
    /// symmetric orientations), within tolerance.
    pub whole_steps: bool,
}

/// Two candidates are symmetric about an axis with `orientations` symmetric
/// orientations in a full turn: the axis lines up, and either every turn is
/// symmetric (`orientations == 0`) or the turn between them is a whole number
/// of steps of a full turn divided by `orientations`.
pub open spec fn sym_hit(orientations: u8, probe: SymProbe) -> bool {
    probe.aligned && (orientations == 0 || probe.whole_steps)
}

/// An axis with 0 orientations counts every aligned turn as symmetric.
pub proof fn lemma_orientation_zero(probe: SymProbe)
    ensures
        sym_hit(0, probe) == probe.aligned,
{
}

/// Candidates are symmetric about an axis only where that axis lines up in
/// world space for both; with a finite number of orientations the turn
/// between them must also be a whole number of steps.
pub proof fn lemma_sym_hit_needs_alignment(orientations: u8, probe: SymProbe)
    ensures
        sym_hit(orientations, probe) ==> probe.aligned,
        orientations != 0 && sym_hit(orientations, probe) ==> probe.whole_steps,
{
}

/// A turn by a whole number of steps about an axis that lines up is
/// symmetric, and so is any aligned turn about an axis whose every turn is.
pub proof fn lemma_whole_turn_is_symmetric(orientations: u8, probe: SymProbe)
    ensures
        probe.aligned && probe.whole_steps ==> sym_hit(orientations, probe),
        probe.aligned && orientations == 0 ==> sym_hit(orientations, probe),
{
}

pub open spec fn probe_view(p: Vec<Vec<Vec<SymProbe>>>) -> Seq<Seq<Seq<SymProbe>>> {
    p@.map_values(|r: Vec<Vec<SymProbe>>| r@.map_values(|v: Vec<SymProbe>| v@))
}

impl AssemblyGraph {
    /// The symmetric orientation counts of the axes of part `p`.
    pub open spec fn orientations(&self, p: int) -> Seq<u8> {
        self.parts@[p].rot_sym_orientations@
    }

    /// Candidates `i` and `j` are the same part, turned into each other about
    /// one of its axes of rotational symmetry; `probes[i][j][s]` is the
    /// geometric probe for axis `s`.
    pub open spec fn symmetric_rel(&self, part_of: Seq<usize>, probes: Seq<Seq<Seq<SymProbe>>>) -> spec_fn(
        int,
        int,
    ) -> bool {
        |i: int, j: int|
            part_of[i] == part_of[j] && exists|s: int|
                0 <= s < self.orientations(part_of[i] as int).len() && #[trigger] sym_hit(
                    self.orientations(part_of[i] as int)[s],
                    probes[i][j][s],
                )
    }

    /// Two candidates are symmetric only if they are of one part and some
    /// axis of that part lines up for both; a part without axes has no
    /// symmetric candidates. Two candidates of one part are symmetric where
    /// an axis lines up and the turn is a whole number of its steps.
    pub proof fn lemma_symmetry_needs_an_axis(&self, part_of: Seq<usize>, probes: Seq<Seq<Seq<SymProbe>>>, i: int, j: int)
        ensures
            self.symmetric_rel(part_of, probes)(i, j) ==> part_of[i] == part_of[j] && exists|s: int|
                0 <= s < self.orientations(part_of[i] as int).len() && (#[trigger] probes[i][j][s]).aligned,
            self.orientations(part_of[i] as int).len() == 0 ==> !self.symmetric_rel(part_of, probes)(i, j),
            part_of[i] != part_of[j] ==> !self.symmetric_rel(part_of, probes)(i, j),
            forall|s: int|
                part_of[i] == part_of[j] && 0 <= s < self.orientations(part_of[i] as int).len()
                    && (#[trigger] probes[i][j][s]).aligned && probes[i][j][s].whole_steps ==> self.symmetric_rel(
                    part_of,
                    probes,
                )(i, j),
    {
        if self.symmetric_rel(part_of, probes)(i, j) {
            let s = choose|s: int|
                0 <= s < self.orientations(part_of[i] as int).len() && #[trigger] sym_hit(
                    self.orientations(part_of[i] as int)[s],
                    probes[i][j][s],
                );
            assert(probes[i][j][s].aligned);
        }
        assert forall|s: int|
            part_of[i] == part_of[j] && 0 <= s < self.orientations(part_of[i] as int).len()
                && (#[trigger] probes[i][j][s]).aligned && probes[i][j][s].whole_steps implies self.symmetric_rel(
                part_of,
                probes,
            )(i, j) by {
            assert(sym_hit(self.orientations(part_of[i] as int)[s], probes[i][j][s]));
        }
    }

    /// What the symmetry sweep marks: everything marked to begin with; a
    /// candidate is newly marked only where an earlier unmarked candidate
    /// of its part has an axis that lines up with it; candidates of a part
    /// without axes keep their marks as they were; and a candidate that an
    /// earlier unmarked candidate of its part turns into by whole steps
    /// about an aligned axis is marked.
    pub proof fn lemma_symmetric_marks(&self, init: Seq<bool>, part_of: Seq<usize>, probes: Seq<Seq<Seq<SymProbe>>>)
        ensures
            ({
                let res = sweep(init, self.symmetric_rel(part_of, probes), part_of.len() as int);
                &&& forall|j: int| 0 <= j < part_of.len() && init[j] ==> #[trigger] res[j]
                &&& forall|j: int|
                    0 <= j < part_of.len() && #[trigger] res[j] && !init[j] ==> exists|i: int, s: int|
                        0 <= i < j && !res[i] && part_of[i] == part_of[j] && 0 <= s < self.orientations(
                            part_of[j] as int,
                        ).len() && (#[trigger] probes[i][j][s]).aligned
                &&& forall|j: int|
                    0 <= j < part_of.len() && self.orientations(part_of[j] as int).len() == 0 ==> #[trigger] res[j]
                        == init[j]
                &&& forall|i: int, j: int, s: int|
                    0 <= i < j < part_of.len() && !res[i] && part_of[i] == part_of[j] && 0 <= s < self.orientations(
                        part_of[i] as int,
                    ).len() && (#[trigger] probes[i][j][s]).aligned && probes[i][j][s].whole_steps ==> res[j]
            }),
    {
        let rel = self.symmetric_rel(part_of, probes);
        let n = part_of.len() as int;
        let res = sweep(init, rel, n);
        lemma_sweep_survivors(init, rel, n);
        assert forall|j: int| 0 <= j < n && #[trigger] res[j] && !init[j] implies exists|i: int, s: int|
            0 <= i < j && !res[i] && part_of[i] == part_of[j] && 0 <= s < self.orientations(part_of[j] as int).len()
                && (#[trigger] probes[i][j][s]).aligned by {
            let i = choose|i: int| 0 <= i < j && !res[i] && #[trigger] rel(i, j);
            self.lemma_symmetry_needs_an_axis(part_of, probes, i, j);
        }
        assert forall|j: int| 0 <= j < n && self.orientations(part_of[j] as int).len() == 0 implies #[trigger] res[j]
            == init[j] by {
            if res[j] && !init[j] {
                let i = choose|i: int| 0 <= i < j && !res[i] && #[trigger] rel(i, j);
                self.lemma_symmetry_needs_an_axis(part_of, probes, i, j);
            }
        }
        assert forall|i: int, j: int, s: int|
            0 <= i < j < n && !res[i] && part_of[i] == part_of[j] && 0 <= s < self.orientations(part_of[i] as int).len()
                && (#[trigger] probes[i][j][s]).aligned && probes[i][j][s].whole_steps implies res[j] by {
            self.lemma_symmetry_needs_an_axis(part_of, probes, i, j);
            assert(rel(i, j));
        }
    }

    /// The probes that [`AssemblyGraph::symmetric_mask`] reads are there.
    pub open spec fn probes_fit(&self, part_of: Seq<usize>, probes: Seq<Seq<Seq<SymProbe>>>) -> bool {
        &&& probes.len() == part_of.len()
        &&& forall|i: int| 0 <= i < part_of.len() ==> #[trigger] part_of[i] < self.parts@.len()
        &&& forall|i: int| 0 <= i < probes.len() ==> #[trigger] probes[i].len() == part_of.len()
        &&& forall|i: int, j: int|
            0 <= i < j < part_of.len() && part_of[i] == part_of[j] ==> (#[trigger] probes[i][j]).len()
                == self.orientations(part_of[i] as int).len()
    }

    /// Marks, on top of `init`, the candidates that are a symmetric turn of an
    /// earlier unmarked candidate of the same part. `part_of[i]` is the part
    /// of candidate `i`.
    pub fn symmetric_mask(&self, init: &Vec<bool>, part_of: &Vec<usize>, probes: &Vec<Vec<Vec<SymProbe>>>) -> (res: Vec<bool>)
        requires
            init@.len() == part_of@.len(),
            self.probes_fit(part_of@, probe_view(*probes)),
        ensures
            res@ == sweep(init@, self.symmetric_rel(part_of@, probe_view(*probes)), part_of@.len() as int),
            forall|i: int, j: int|
                0 <= i < j < part_of@.len() && !res@[i] && !res@[j] ==> !self.symmetric_rel(
                    part_of@,
                    probe_view(*probes),
                )(i, j),
            forall|j: int| 0 <= j < part_of@.len() && init@[j] ==> #[trigger] res@[j],
            forall|j: int|
                0 <= j < part_of@.len() && #[trigger] res@[j] && !init@[j] ==> exists|i: int, s: int|
                    0 <= i < j && !res@[i] && part_of@[i] == part_of@[j] && 0 <= s < self.orientations(
                        part_of@[j] as int,
                    ).len() && (#[trigger] probe_view(*probes)[i][j][s]).aligned,
            forall|j: int|
                0 <= j < part_of@.len() && self.orientations(part_of@[j] as int).len() == 0 ==> #[trigger] res@[j]
                    == init@[j],
            forall|i: int, j: int, s: int|
                0 <= i < j < part_of@.len() && !res@[i] && part_of@[i] == part_of@[j] && 0 <= s < self.orientations(
                    part_of@[i] as int,
                ).len() && (#[trigger] probe_view(*probes)[i][j][s]).aligned && probe_view(*probes)[i][j][s].whole_steps
                    ==> res@[j],
    {
        proof {
            self.lemma_symmetric_marks(init@, part_of@, probe_view(*probes));
            lemma_sweep_survivors(init@, self.symmetric_rel(part_of@, probe_view(*probes)), part_of@.len() as int);
        }
        let ghost pv = probe_view(*probes);
        let ghost rel = self.symmetric_rel(part_of@, pv);
        let n = part_of.len();
        let mut res: Vec<bool> = Vec::new();
        for j in 0..n
            invariant
                n == part_of@.len(),
                init@.len() == n,
                pv == probe_view(*probes),
                rel == self.symmetric_rel(part_of@, pv),
                self.probes_fit(part_of@, pv),
                res@ == sweep(init@, rel, j as int),
        {
            let ghost prev = res@;
            proof {
                lemma_sweep_prefix(init@, rel, j as int, j as int);
            }
            let mut marked = init[j];
            for i in 0..j
                invariant
                    j < n,
                    n == part_of@.len(),
                    init@.len() == n,
                    pv == probe_view(*probes),
                    rel == self.symmetric_rel(part_of@, pv),
                    self.probes_fit(part_of@, pv),
                    prev == res@,
                    prev.len() == j,
                    marked == (init@[j as int] || exists|k: int| 0 <= k < i && !prev[k] && #[trigger] rel(k, j as int)),
            {
                let ghost was = marked;
                if !marked && !res[i] && part_of[i] == part_of[j] {
                    let orients = &self.parts[part_of[i]].rot_sym_orientations;
                    assert(pv.len() == probes@.len());
                    assert(pv[i as int] == probes@[i as int]@.map_values(|v: Vec<SymProbe>| v@));
                    assert(pv[i as int].len() == probes@[i as int]@.len());
                    assert(pv[i as int][j as int] == probes@[i as int]@[j as int]@);
                    let pr = &probes[i][j];
                    let mut hit = false;
                    for s in 0..orients.len()
                        invariant
                            orients@ == self.orientations(part_of@[i as int] as int),
                            pr@ == pv[i as int][j as int],
                            pr@.len() == orients@.len(),
                            hit == exists|t: int| 0 <= t < s && #[trigger] sym_hit(orients@[t], pr@[t]),
                    {
                        let probe = pr[s];
                        let o = orients[s];
                        if probe.aligned && (o == 0 || probe.whole_steps) {
                            assert(sym_hit(orients@[s as int], pr@[s as int]));
                            hit = true;
                        }
                    }
                    if hit {
                        assert(rel(i as int, j as int));
                        marked = true;
                    } else {
                        assert(!rel(i as int, j as int));
                    }
                }
                assert(marked == (init@[j as int] || exists|k: int| 0 <= k < i + 1 && !prev[k] && #[trigger] rel(k, j as int))) by {
                    if !was && !marked && !prev[i as int] && part_of@[i as int] == part_of@[j as int] {
                        assert(!rel(i as int, j as int));
                    }
                }
            }
            res.push(marked);
            assert(res@ =~= sweep(init@, rel, j + 1));
        }
        res
    }
}

/// The first entry of `s`, if any, as a sequence.
pub open spec fn first_only<A>(s: Seq<A>) -> Seq<A> {
    if s.len() == 0 {
        s
    } else {
        s.take(1)
    }
}

/// The indices below `n` at which `f` holds, in increasing order.
pub open spec fn kept_indices(f: spec_fn(int) -> bool, n: int) -> Seq<usize>
    decreases n,
{
    if n <= 0 {
        Seq::empty()
    } else if f(n - 1) {
        kept_indices(f, n - 1).push((n - 1) as usize)
    } else {
        kept_indices(f, n - 1)
    }
}

/// The kept indices below `m` start the kept indices below `n`.
pub proof fn lemma_kept_prefix(f: spec_fn(int) -> bool, m: int, n: int)
    requires
        0 <= m <= n,
    ensures
        kept_indices(f, m).len() <= kept_indices(f, n).len(),
        kept_indices(f, n).take(kept_indices(f, m).len() as int) == kept_indices(f, m),
        forall|i: int| 0 <= i < kept_indices(f, n).len() ==> #[trigger] kept_indices(f, n)[i] < n,
    decreases n,
{
    if n > 0 {
        if m < n {
            lemma_kept_prefix(f, m, n - 1);
            assert(kept_indices(f, n).take(kept_indices(f, m).len() as int) =~= kept_indices(f, n - 1).take(
                kept_indices(f, m).len() as int,
            ));
        } else {
            lemma_kept_prefix(f, n - 1, n - 1);
            assert(kept_indices(f, n).take(kept_indices(f, n).len() as int) =~= kept_indices(f, n));
        }
        lemma_kept_prefix(f, n - 1, n - 1);
    } else {
        assert(kept_indices(f, n).take(0) =~= kept_indices(f, m));
    }
}

/// `keep` answers `f(i)` for every index `i` below `n`, whenever it returns.
pub open spec fn answers<F: Fn(usize) -> bool>(keep: F, f: spec_fn(int) -> bool, n: int) -> bool {
    forall|i: usize, b: bool| i < n && #[trigger] call_ensures(keep, (i,), b) ==> b == f(i as int)
}

/// `sel` lists, in increasing order, indices below `n` at which `keep`
/// answered `true`; every index left out answered `false`, save that with
/// `single` the list holds at most one index and only those before it are
/// accounted for.
pub open spec fn selection_ok<F: Fn(usize) -> bool>(keep: F, n: int, single: bool, sel: Seq<usize>) -> bool {
    &&& forall|k: int| 0 <= k < sel.len() ==> #[trigger] sel[k] < n && call_ensures(keep, (sel[k],), true)
    &&& forall|k1: int, k2: int| 0 <= k1 < k2 < sel.len() ==> #[trigger] sel[k1] < #[trigger] sel[k2]
    &&& single ==> sel.len() <= 1
    &&& single && sel.len() == 1 ==> forall|i: usize| i < sel[0] ==> call_ensures(keep, (i,), false)
    &&& single && sel.len() == 0 ==> forall|i: usize| i < n ==> call_ensures(keep, (i,), false)
    &&& !single ==> forall|i: usize| i < n && !sel.contains(i) ==> call_ensures(keep, (i,), false)
}

/// Tries the candidates `0..n` in order with `keep` and returns the indices
/// of those kept, in order; when `single`, stops at the first one kept.
/// Where `keep` answers as a function `f` does, the result is exactly the
/// indices at which `f` holds, or the first of them when `single`.
pub fn select_candidates<F: Fn(usize) -> bool>(n: usize, single: bool, keep: F) -> (res: Vec<usize>)
    requires
        forall|i: usize| i < n ==> call_requires(keep, (i,)),
    ensures
        selection_ok(keep, n as int, single, res@),
        forall|f: spec_fn(int) -> bool|
            #[trigger] answers(keep, f, n as int) ==> res@ == (if single {
                first_only(kept_indices(f, n as int))
            } else {
                kept_indices(f, n as int)
            }),
{
    let mut res: Vec<usize> = Vec::new();
    for i in 0..n
        invariant
            forall|i: usize| i < n ==> call_requires(keep, (i,)),
            forall|k: int| 0 <= k < res@.len() ==> #[trigger] res@[k] < i && call_ensures(keep, (res@[k],), true),
            forall|k1: int, k2: int| 0 <= k1 < k2 < res@.len() ==> #[trigger] res@[k1] < #[trigger] res@[k2],
            single ==> res@.len() == 0,
            forall|x: usize| x < i && !res@.contains(x) ==> call_ensures(keep, (x,), false),
            forall|f: spec_fn(int) -> bool|
                #[trigger] answers(keep, f, n as int) ==> res@ == kept_indices(f, i as int),
    {
        let ghost old_res = res@;
        let kept = keep(i);
        if kept {
            res.push(i);
            if single {
                assert(res@ =~= seq![i]);
                assert forall|x: usize| x < res@[0] implies call_ensures(keep, (x,), false) by {
                    assert(!old_res.contains(x));
                }
                assert forall|f: spec_fn(int) -> bool| #[trigger] answers(keep, f, n as int) implies res@
                    == first_only(kept_indices(f, n as int)) by {
                    assert(f(i as int));
                    assert(kept_indices(f, i + 1) =~= seq![i]);
                    lemma_kept_prefix(f, i + 1, n as int);
                }
                return res;
            }
        }
        assert forall|f: spec_fn(int) -> bool| #[trigger] answers(keep, f, n as int) implies res@ == kept_indices(
            f,
            i + 1,
        ) by {
            assert(call_ensures(keep, (i,), kept));
            assert(f(i as int) == kept);
        }
        assert forall|x: usize| x < i + 1 && !res@.contains(x) implies call_ensures(keep, (x,), false) by {
            if x == i {
                assert(call_ensures(keep, (i,), kept));
                if kept {
                    assert(res@[res@.len() - 1] == i);
                }
            }
            if x < i {
                assert(!old_res.contains(x)) by {
                    if old_res.contains(x) {
                        let w = choose|w: int| 0 <= w < old_res.len() && old_res[w] == x;
                        assert(res@[w] == x);
                    }
                }
            }
        }
    }
    assert forall|x: usize| single && res@.len() == 0 && x < n implies call_ensures(keep, (x,), false) by {
        assert(!res@.contains(x));
    }
    assert forall|f: spec_fn(int) -> bool| #[trigger] answers(keep, f, n as int) implies res@ == (if single {
        first_only(kept_indices(f, n as int))
    } else {
        kept_indices(f, n as int)
    }) by {
        assert(res@ == kept_indices(f, n as int));
        if single {
            assert(res@.len() == 0);
            assert(first_only(kept_indices(f, n as int)) =~= res@);
        }
    }
    res
}

/// The entries of `items` at the given indices, in the order of `idx`.
pub fn gather<T: Copy>(items: &Vec<T>, idx: &Vec<usize>) -> (res: Vec<T>)
    requires
        forall|k: int| 0 <= k < idx@.len() ==> #[trigger] idx@[k] < items@.len(),
    ensures
        res@ == idx@.map_values(|i: usize| items@[i as int]),
{
    let mut res: Vec<T> = Vec::new();
    for k in 0..idx.len()
        invariant
            forall|k: int| 0 <= k < idx@.len() ==> #[trigger] idx@[k] < items@.len(),
            res@ == idx@.take(k as int).map_values(|i: usize| items@[i as int]),
    {
        res.push(items[idx[k]]);
        assert(idx@.take(k + 1).map_values(|i: usize| items@[i as int]) =~= idx@.take(k as int).map_values(
            |i: usize| items@[i as int],
        ).push(items@[idx@[k as int] as int]));
    }
    assert(idx@.take(idx@.len() as int) =~= idx@);
    res
}

/// The candidates of `items` at the indices that `keep` selects (see
/// [`selection_ok`]), in order; only the first
/// of them when `single` (see [`select_candidates`]). Where `keep` answers as
/// `f` does, these are the candidates at the indices where `f` holds.
pub fn pick_candidates<T: Copy, F: Fn(usize) -> bool>(items: &Vec<T>, single: bool, keep: F) -> (res: Vec<T>)
    requires
        forall|i: usize| i < items@.len() ==> call_requires(keep, (i,)),
    ensures
        exists|sel: Seq<usize>|
            #[trigger] selection_ok(keep, items@.len() as int, single, sel) && res@ == sel.map_values(
                |i: usize| items@[i as int],
            ),
        forall|f: spec_fn(int) -> bool|
            #[trigger] answers(keep, f, items@.len() as int) ==> res@ == (if single {
                first_only(kept_indices(f, items@.len() as int))
            } else {
                kept_indices(f, items@.len() as int)
            }).map_values(|i: usize| items@[i as int]),
{
    let selected = select_candidates(items.len(), single, keep);
    let res = gather(items, &selected);
    assert(selection_ok(keep, items@.len() as int, single, selected@));
    res
}

/// An unmarked first entry is the first of the unmarked entries.
pub proof fn lemma_unmarked_first<T>(items: Seq<T>, mask: Seq<bool>, n: int)
    requires
        1 <= n,
        !mask[0],
    ensures
        unmarked(items, mask, n).len() >= 1,
        unmarked(items, mask, n)[0] == items[0],
    decreases n,
{
    if n > 1 {
        lemma_unmarked_first(items, mask, n - 1);
        let prev = unmarked(items, mask, n - 1);
        if !mask[n - 1] {
            assert(unmarked(items, mask, n) == prev.push(items[n - 1]));
            assert(prev.push(items[n - 1])[0] == prev[0]);
        }
    } else {
        assert(unmarked(items, mask, 0).len() == 0);
        assert(unmarked(items, mask, 1) == unmarked(items, mask, 0).push(items[0]));
    }
}

/// A sweep keeps the first entry as it was to begin with.
pub proof fn lemma_sweep_first(init: Seq<bool>, rel: spec_fn(int, int) -> bool, n: int)
    requires
        1 <= n,
    ensures
        sweep(init, rel, n)[0] == init[0],
{
    lemma_sweep_prefix(init, rel, 1, n);
    let s0 = sweep(init, rel, 0);
    assert(!(exists|i: int| 0 <= i < 0 && !s0[i] && #[trigger] rel(i, 0)));
    assert(sweep(init, rel, 1)[0] == init[0]);
    assert(sweep(init, rel, n)[0] == sweep(init, rel, n).take(1)[0]);
}

impl AssemblyGraph {
    /// The placements a query returns, given the placements it kept in order
    /// (`kept`, of parts `part_of`): the first one alone when `single`, and
    /// otherwise every one that neither repeats an earlier one (by `close`)
    /// nor is a symmetric turn of one (by `probes`).
    pub open spec fn finish_spec<T>(
        &self,
        kept: Seq<T>,
        part_of: Seq<usize>,
        close: Seq<Seq<bool>>,
        probes: Seq<Seq<Seq<SymProbe>>>,
        single: bool,
    ) -> Seq<T> {
        if single {
            first_only(kept)
        } else {
            let n = kept.len() as int;
            let repeats = sweep(Seq::new(n as nat, |i: int| false), redundant_rel(part_of, close), n);
            unmarked(kept, sweep(repeats, self.symmetric_rel(part_of, probes), n), n)
        }
    }

    /// What a query over the candidates `items` returns, where `f` says which
    /// candidates are kept (do not collide with the model): the kept ones are
    /// chosen in order, the first only when `single`, and then finished by
    /// [`AssemblyGraph::finish_spec`]; `part_of`, `close` and `probes`
    /// describe the kept ones.
    pub open spec fn query_outcome<T>(
        &self,
        items: Seq<T>,
        f: spec_fn(int) -> bool,
        single: bool,
        part_of: Seq<usize>,
        close: Seq<Seq<bool>>,
        probes: Seq<Seq<Seq<SymProbe>>>,
    ) -> Seq<T> {
        let all = kept_indices(f, items.len() as int);
        let chosen = if single {
            first_only(all)
        } else {
            all
        };
        self.finish_spec(chosen.map_values(|i: usize| items[i as int]), part_of, close, probes, single)
    }

    /// Finishes a query over the placements it kept, in order (see
    /// [`AssemblyGraph::finish_spec`]). `part_of[i]` is the part of `kept[i]`,
    /// `close[i][j]` says whether `kept[i]` and `kept[j]` have the same
    /// position and rotation, and `probes[i][j]` probes their symmetry.
    pub fn finish_query<T: Copy>(
        &self,
        kept: &Vec<T>,
        part_of: &Vec<usize>,
        single: bool,
        close: &Vec<Vec<bool>>,
        probes: &Vec<Vec<Vec<SymProbe>>>,
    ) -> (res: Vec<T>)
        requires
            part_of@.len() == kept@.len(),
            !single ==> close@.len() == part_of@.len(),
            !single ==> forall|i: int| 0 <= i < close@.len() ==> (#[trigger] close@[i])@.len() == part_of@.len(),
            !single ==> self.probes_fit(part_of@, probe_view(*probes)),
        ensures
            res@ == self.finish_spec(kept@, part_of@, grid_view(*close), probe_view(*probes), single),
    {
        if single {
            let mut res: Vec<T> = Vec::new();
            if kept.len() > 0 {
                res.push(kept[0]);
                assert(res@ =~= kept@.take(1));
            } else {
                assert(res@ =~= kept@);
            }
            return res;
        }
        let repeats = redundant_mask(part_of, close);
        proof {
            lemma_sweep_prefix(
                Seq::new(part_of@.len(), |i: int| false),
                redundant_rel(part_of@, grid_view(*close)),
                part_of@.len() as int,
                part_of@.len() as int,
            );
        }
        let mask = self.symmetric_mask(&repeats, part_of, probes);
        proof {
            lemma_sweep_prefix(
                repeats@,
                self.symmetric_rel(part_of@, probe_view(*probes)),
                part_of@.len() as int,
                part_of@.len() as int,
            );
        }
        retain_unmarked(kept, &mask)
    }
}

/// A single query returns the first placement of the full query, and nothing
/// exactly when the full query returns nothing.
pub proof fn lemma_single_query_is_first<T>(
    g: AssemblyGraph,
    items: Seq<T>,
    f: spec_fn(int) -> bool,
    part_of: Seq<usize>,
    close: Seq<Seq<bool>>,
    probes: Seq<Seq<Seq<SymProbe>>>,
    single_part_of: Seq<usize>,
    single_close: Seq<Seq<bool>>,
    single_probes: Seq<Seq<Seq<SymProbe>>>,
)
    ensures
        g.query_outcome(items, f, true, single_part_of, single_close, single_probes) == first_only(
            g.query_outcome(items, f, false, part_of, close, probes),
        ),
{
    let all = kept_indices(f, items.len() as int);
    let kept = all.map_values(|i: usize| items[i as int]);
    let n = kept.len() as int;
    let full = g.query_outcome(items, f, false, part_of, close, probes);
    let one = g.query_outcome(items, f, true, single_part_of, single_close, single_probes);
    if n == 0 {
        assert(first_only(all) =~= all);
        assert(unmarked(kept, sweep(sweep(Seq::new(n as nat, |i: int| false), redundant_rel(part_of, close), n), g.symmetric_rel(part_of, probes), n), n) =~= Seq::<T>::empty());
        assert(one =~= Seq::<T>::empty());
        assert(full.len() == 0);
        assert(first_only(full) =~= full);
    } else {
        let repeats = sweep(Seq::new(n as nat, |i: int| false), redundant_rel(part_of, close), n);
        let mask = sweep(repeats, g.symmetric_rel(part_of, probes), n);
        lemma_sweep_first(Seq::new(n as nat, |i: int| false), redundant_rel(part_of, close), n);
        lemma_sweep_first(repeats, g.symmetric_rel(part_of, probes), n);
        lemma_unmarked_first(kept, mask, n);
        assert(first_only(all).map_values(|i: usize| items[i as int]) =~= kept.take(1));
        assert(first_only(kept.take(1)) =~= kept.take(1));
        assert(one =~= kept.take(1));
        assert(full =~= unmarked(kept, mask, n));
        assert(first_only(full) =~= full.take(1));
        assert(full.take(1) =~= kept.take(1));
    }
}

} // verus!
