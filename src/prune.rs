use vstd::prelude::*;

use crate::crates::Crate;
use crate::graph::{closed, contains_name, holds_name, reaches};

verus! {

/// The candidates whose trial succeeded, in trial order.
pub open spec fn chosen(cands: Seq<Seq<char>>, outcomes: Seq<bool>) -> Seq<Seq<char>>
    decreases outcomes.len(),
{
    if outcomes.len() == 0 {
        Seq::empty()
    } else if outcomes.last() {
        chosen(cands, outcomes.drop_last()).push(cands[outcomes.len() - 1])
    } else {
        chosen(cands, outcomes.drop_last())
    }
}

/// Enabled flags after disabling, one after another, every feature at the
/// indices `removed`, starting from `base`.
pub open spec fn without(adj: Seq<Seq<usize>>, base: Seq<bool>, removed: Seq<usize>) -> Seq<bool> {
    Seq::new(
        base.len(),
        |j: int| base[j] && !exists|k: int| 0 <= k < removed.len() && reaches(adj, j as usize, #[trigger] removed[k]),
    )
}

/// One pruning pass over a dependency: each candidate (an enabled feature
/// that is not protected) is tried alone against the baseline, and those
/// whose trial builds are removed together at the end.
///
/// A caller drives it: `start_trial`, persist, run the build check,
/// `record` the outcome, persist; repeat while `has_next`; then `finish`.
pub struct Pruner {
    /// Candidate names, in display order.
    pub candidates: Vec<String>,
    /// Their indices in the dependency's feature list.
    pub candidate_indices: Vec<usize>,
    /// The enabled flags before the pass.
    pub baseline: Vec<bool>,
    /// Names whose trial succeeded, in trial order.
    pub accepted: Vec<String>,
    pub accepted_indices: Vec<usize>,
    /// How many trials have been recorded.
    pub next: usize,
    pub dry_run: bool,
    /// Protected feature names.
    pub ignored: Vec<String>,
    /// The recorded outcomes, one per finished trial.
    pub outcomes: Ghost<Seq<bool>>,
}

impl Pruner {
    /// The candidates of a dependency: enabled features not protected by
    /// `ignored`, in display order.
    pub open spec fn candidates_spec(dep: &Crate, ignored: Seq<String>) -> Seq<Seq<char>> {
        dep.list_where(
            dep.names@.len() as int,
            |i: int| dep.enabled@[i] && !holds_name(ignored, dep.names@[i]@),
        )
    }

    pub open spec fn cands_view(&self) -> Seq<Seq<char>> {
        self.candidates@.map_values(|s: String| s@)
    }

    pub open spec fn accepted_view(&self) -> Seq<Seq<char>> {
        self.accepted@.map_values(|s: String| s@)
    }

    /// The pass is consistent with the dependency `dep` it works on.
    pub open spec fn wf(&self, dep: &Crate) -> bool {
        &&& dep.shape_ok()
        &&& self.baseline@.len() == dep.names@.len()
        &&& closed(dep.adj(), self.baseline@)
        &&& self.candidates@.len() == self.candidate_indices@.len()
        &&& self.candidates@.len() <= dep.names@.len()
        &&& forall|k: int|
            0 <= k < self.candidate_indices@.len() ==> #[trigger] self.candidate_indices@[k]
                < dep.names@.len() && dep.names@[self.candidate_indices@[k] as int]@
                == self.candidates@[k]@
        &&& forall|k: int|
            0 <= k < self.candidates@.len() ==> !holds_name(
                self.ignored@,
                #[trigger] self.candidates@[k]@,
            )
        &&& self.next <= self.candidates@.len()
        &&& self.outcomes@.len() == self.next
        &&& self.accepted_view() == chosen(self.cands_view(), self.outcomes@)
        &&& self.accepted@.len() == self.accepted_indices@.len()
        &&& forall|k: int|
            0 <= k < self.accepted_indices@.len() ==> #[trigger] self.accepted_indices@[k]
                < dep.names@.len() && dep.names@[self.accepted_indices@[k] as int]@
                == self.accepted@[k]@
    }

    /// Starts a pass over `dep` as it stands now.
    pub fn new(dep: &Crate, ignored: Vec<String>, dry_run: bool) -> (r: Pruner)
        requires
            dep.wf(),
        ensures
            r.wf(dep),
            r.cands_view() == Self::candidates_spec(dep, ignored@),
            r.baseline@ == dep.enabled@,
            r.ignored@ == ignored@,
            r.dry_run == dry_run,
            r.next == 0,
            r.accepted@.len() == 0,
    {
        let ghost p = |i: int| dep.enabled@[i] && !holds_name(ignored@, dep.names@[i]@);
        let mut candidates: Vec<String> = Vec::new();
        let mut candidate_indices: Vec<usize> = Vec::new();
        let mut i: usize = 0;
        while i < dep.names.len()
            invariant
                dep.wf(),
                i <= dep.names@.len(),
                p == (|i: int| dep.enabled@[i] && !holds_name(ignored@, dep.names@[i]@)),
                candidates@.map_values(|s: String| s@) == dep.list_where(i as int, p),
                candidates@.len() == candidate_indices@.len(),
                candidates@.len() <= i,
                forall|k: int|
                    0 <= k < candidate_indices@.len() ==> #[trigger] candidate_indices@[k]
                        < dep.names@.len() && dep.names@[candidate_indices@[k] as int]@
                        == candidates@[k]@,
                forall|k: int|
                    0 <= k < candidates@.len() ==> !holds_name(ignored@, #[trigger] candidates@[k]@),
            decreases dep.names@.len() - i,
        {
            if dep.enabled[i] && !contains_name(&ignored, &dep.names[i]) {
                let ghost prev = candidates@;
                candidates.push(dep.names[i].clone());
                candidate_indices.push(i);
                assert(candidates@.map_values(|s: String| s@) =~= prev.map_values(|s: String| s@).push(
                    dep.names@[i as int]@,
                ));
            }
            i = i + 1;
        }
        let r = Pruner {
            candidates,
            candidate_indices,
            baseline: dep.enabled.clone(),
            accepted: Vec::new(),
            accepted_indices: Vec::new(),
            next: 0,
            dry_run,
            ignored,
            outcomes: Ghost(Seq::empty()),
        };
        assert(r.accepted_view() =~= Seq::<Seq<char>>::empty());
        r
    }

    /// Whether a trial is left to run.
    pub fn has_next(&self) -> (r: bool)
        ensures
            r == (self.next < self.candidates@.len()),
    {
        self.next < self.candidates.len()
    }

    /// Number of the trial to run next, counted from one, for progress.
    pub fn trial_index(&self) -> (r: usize)
        requires
            self.next < self.candidates@.len() <= usize::MAX,
        ensures
            r == self.next + 1,
    {
        self.next + 1
    }

    /// How many trials the pass runs.
    pub fn trial_total(&self) -> (r: usize)
        ensures
            r == self.candidates@.len(),
    {
        self.candidates.len()
    }

    /// The names whose trial succeeded so far.
    pub fn get_accepted(&self) -> (r: Vec<String>)
        ensures
            r@ == self.accepted@,
    {
        self.accepted.clone()
    }

    /// Disables the next candidate, from the baseline, with everything that
    /// depends on it, and returns its name. The caller then persists `dep`
    /// and runs the build check.
    pub fn start_trial(&self, dep: &mut Crate) -> (r: String)
        requires
            old(dep).wf(),
            self.wf(old(dep)),
            old(dep).enabled@ == self.baseline@,
            self.next < self.candidates@.len(),
        ensures
            final(dep).wf(),
            final(dep).same_graph(old(dep)),
            self.wf(final(dep)),
            r@ == self.candidates@[self.next as int]@,
            final(dep).enabled@ == without(
                old(dep).adj(),
                self.baseline@,
                seq![self.candidate_indices@[self.next as int]],
            ),
    {
        let f = self.candidate_indices[self.next];
        dep.disable_index(f);
        assert(dep.enabled@ =~= without(dep.adj(), self.baseline@, seq![f])) by {
            assert forall|j: int| 0 <= j < dep.enabled@.len() implies dep.enabled@[j] == without(
                dep.adj(),
                self.baseline@,
                seq![f],
            )[j] by {
                let u = j as usize;
                assert(u as int == j);
                assert(dep.enabled@[u as int] == (self.baseline@[u as int] && !reaches(
                    dep.adj(),
                    u,
                    f,
                )));
                if reaches(dep.adj(), j as usize, f) {
                    assert(seq![f][0] == f);
                }
            }
        }
        self.candidates[self.next].clone()
    }

    /// Records the outcome of the current trial and puts `dep` back to the
    /// baseline. The caller then persists `dep` again.
    pub fn record(&mut self, dep: &mut Crate, success: bool)
        requires
            old(dep).shape_ok(),
            old(self).wf(old(dep)),
            old(self).next < old(self).candidates@.len(),
        ensures
            final(dep).wf(),
            final(dep).same_graph(old(dep)),
            final(self).wf(final(dep)),
            final(dep).enabled@ == old(self).baseline@,
            final(self).next == old(self).next + 1,
            final(self).outcomes@ == old(self).outcomes@.push(success),
            final(self).candidates@ == old(self).candidates@,
            final(self).candidate_indices@ == old(self).candidate_indices@,
            final(self).baseline@ == old(self).baseline@,
            final(self).ignored@ == old(self).ignored@,
            final(self).dry_run == old(self).dry_run,
    {
        let ghost prev = self.accepted@;
        let ghost outs = self.outcomes@;
        let nx = self.next + 1;
        if success {
            self.accepted.push(self.candidates[self.next].clone());
            self.accepted_indices.push(self.candidate_indices[self.next]);
        }
        self.outcomes = Ghost(self.outcomes@.push(success));
        proof {
            let o = self.outcomes@;
            assert(o.drop_last() =~= outs);
            if success {
                assert(self.accepted_view() =~= prev.map_values(|s: String| s@).push(
                    self.cands_view()[o.len() - 1],
                ));
            }
        }
        self.next = nx;
        dep.enabled = self.baseline.clone();
    }

    /// Ends the pass. Unless it is a dry run, disables every accepted
    /// feature together, from the baseline, without a further check.
    /// Returns whether `dep` changed and must be persisted.
    pub fn finish(&self, dep: &mut Crate) -> (r: bool)
        requires
            old(dep).wf(),
            self.wf(old(dep)),
            old(dep).enabled@ == self.baseline@,
        ensures
            final(dep).wf(),
            final(dep).same_graph(old(dep)),
            r == (!self.dry_run && self.accepted@.len() > 0),
            !r ==> final(dep).enabled@ == old(dep).enabled@,
            final(dep).enabled@ == without(
                old(dep).adj(),
                self.baseline@,
                if r {
                    self.accepted_indices@
                } else {
                    Seq::empty()
                },
            ),
    {
        let ghost adj = dep.adj();
        let ghost base = self.baseline@;
        if self.dry_run || self.accepted.len() == 0 {
            assert(dep.enabled@ =~= without(adj, base, Seq::empty()));
            return false;
        }
        let mut k: usize = 0;
        assert(dep.enabled@ =~= without(adj, base, self.accepted_indices@.take(0)));
        while k < self.accepted_indices.len()
            invariant
                dep.wf(),
                dep.same_graph(old(dep)),
                dep.adj() == adj,
                self.wf(old(dep)),
                base == self.baseline@,
                k <= self.accepted_indices@.len(),
                dep.enabled@ == without(adj, base, self.accepted_indices@.take(k as int)),
            decreases self.accepted_indices@.len() - k,
        {
            let a = self.accepted_indices[k];
            let ghost before = dep.enabled@;
            dep.disable_index(a);
            let ghost t0 = self.accepted_indices@.take(k as int);
            let ghost t1 = self.accepted_indices@.take(k + 1);
            assert forall|j: int| 0 <= j < dep.enabled@.len() implies dep.enabled@[j] == without(
                adj,
                base,
                t1,
            )[j] by {
                let u = j as usize;
                assert(u as int == j);
                assert(dep.enabled@[u as int] == (before[u as int] && !reaches(adj, u, a)));
                assert(t1[k as int] == a);
                if exists|m: int| 0 <= m < t1.len() && reaches(adj, j as usize, #[trigger] t1[m]) {
                    let m = choose|m: int| 0 <= m < t1.len() && reaches(adj, j as usize, #[trigger] t1[m]);
                    if m < k {
                        assert(t0[m] == t1[m]);
                    }
                }
                if exists|m: int| 0 <= m < t0.len() && reaches(adj, j as usize, #[trigger] t0[m]) {
                    let m = choose|m: int| 0 <= m < t0.len() && reaches(adj, j as usize, #[trigger] t0[m]);
                    assert(t1[m] == t0[m]);
                }
            }
            assert(dep.enabled@ =~= without(adj, base, t1));
            k = k + 1;
        }
        assert(self.accepted_indices@.take(k as int) =~= self.accepted_indices@);
        true
    }
}

/// Runs a whole pass over `dep`, with `outcomes[k]` standing for the result
/// of the build check in trial `k` (a missing entry counts as a failure).
/// Returns the accepted features.
pub fn prune_with_outcomes(dep: &mut Crate, ignored: Vec<String>, outcomes: &Vec<bool>, dry_run: bool) -> (r:
    Vec<String>)
    requires
        old(dep).wf(),
    ensures
        final(dep).wf(),
        final(dep).same_graph(old(dep)),
        ({
            let cands = Pruner::candidates_spec(old(dep), ignored@);
            let outs = Seq::new(cands.len(), |k: int| k < outcomes@.len() && outcomes@[k]);
            r@.map_values(|s: String| s@) == chosen(cands, outs)
        }),
        forall|k: int| 0 <= k < r@.len() ==> !holds_name(ignored@, #[trigger] r@[k]@),
        dry_run || r@.len() == 0 ==> final(dep).enabled@ == old(dep).enabled@,
        !dry_run ==> forall|j: int|
            0 <= j < old(dep).names@.len() ==> #[trigger] final(dep).enabled@[j] == (old(dep).enabled@[j]
                && !exists|a: usize|
                a < old(dep).names@.len() && #[trigger] holds_name(r@, old(dep).names@[a as int]@)
                    && reaches(old(dep).adj(), j as usize, a)),
{
    let mut p = Pruner::new(dep, ignored, dry_run);
    let ghost cands = p.cands_view();
    let ghost n = dep.names@.len();
    let ghost adj = dep.adj();
    let ghost d0 = *dep;
    while p.has_next()
        invariant
            dep.wf(),
            dep.same_graph(&d0),
            dep.adj() == adj,
            p.wf(dep),
            dep.enabled@ == p.baseline@,
            p.baseline@ == d0.enabled@,
            p.cands_view() == cands,
            p.ignored@ == ignored@,
            p.dry_run == dry_run,
            forall|k: int| 0 <= k < p.outcomes@.len() ==> #[trigger] p.outcomes@[k] == (k < outcomes@.len() && outcomes@[k]),
        decreases p.candidates@.len() - p.next,
    {
        p.start_trial(dep);
        let k = p.next;
        let ok = k < outcomes.len() && outcomes[k];
        p.record(dep, ok);
    }
    let ghost outs = Seq::new(cands.len(), |k: int| k < outcomes@.len() && outcomes@[k]);
    assert(p.outcomes@ =~= outs);
    p.finish(dep);
    let r = p.get_accepted();
    proof {
        assert forall|k: int| 0 <= k < r@.len() implies !holds_name(ignored@, #[trigger] r@[k]@) by {
            lemma_chosen_from(cands, outs, k);
            let m = choose|m: int| 0 <= m < cands.len() && cands[m] == chosen(cands, outs)[k];
            assert(p.accepted_view()[k] == r@[k]@);
            assert(p.candidates@[m]@ == cands[m]);
        }
        if !dry_run {
            let acc = p.accepted_indices@;
            assert forall|j: int| 0 <= j < n implies #[trigger] dep.enabled@[j] == (d0.enabled@[j]
                && !exists|a: usize|
                a < n && #[trigger] holds_name(r@, d0.names@[a as int]@) && reaches(adj, j as usize, a)) by {
                if exists|k: int| 0 <= k < acc.len() && reaches(adj, j as usize, #[trigger] acc[k]) {
                    let k = choose|k: int| 0 <= k < acc.len() && reaches(adj, j as usize, #[trigger] acc[k]);
                    let a = acc[k];
                    assert(r@[k]@ == d0.names@[a as int]@);
                    assert(holds_name(r@, d0.names@[a as int]@));
                }
                if exists|a: usize| a < n && #[trigger] holds_name(r@, d0.names@[a as int]@) && reaches(adj, j as usize, a) {
                    let a = choose|a: usize| a < n && #[trigger] holds_name(r@, d0.names@[a as int]@) && reaches(adj, j as usize, a);
                    let k = choose|k: int| 0 <= k < r@.len() && #[trigger] r@[k]@ == d0.names@[a as int]@;
                    if acc[k] != a {
                        d0.lemma_names_distinct(acc[k] as int, a as int);
                    }
                    assert(reaches(adj, j as usize, acc[k]));
                }
            }
        }
    }
    r
}

/// Every chosen name is one of the candidates.
pub proof fn lemma_chosen_from(cands: Seq<Seq<char>>, outcomes: Seq<bool>, k: int)
    requires
        outcomes.len() <= cands.len(),
        0 <= k < chosen(cands, outcomes).len(),
    ensures
        exists|m: int| 0 <= m < cands.len() && cands[m] == chosen(cands, outcomes)[k],
    decreases outcomes.len(),
{
    let c0 = chosen(cands, outcomes.drop_last());
    if outcomes.last() && k == c0.len() {
        assert(cands[outcomes.len() - 1] == chosen(cands, outcomes)[k]);
    } else {
        lemma_chosen_from(cands, outcomes.drop_last(), k);
    }
}

} // verus!
