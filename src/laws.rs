use vstd::prelude::*;

use crate::crates::Crate;
use crate::graph::{
    after_disable, after_enable, closed, edge, holds_name, is_path, lemma_closed_reaches,
    lemma_reaches_step, reaches,
};
use crate::manifest::is_bare;
use crate::prune::{lemma_chosen_from, Pruner};

verus! {

/// Enabling a feature twice leaves the same flags as enabling it once.
pub proof fn lemma_enable_idempotent(c: &Crate, f: usize)
    requires
        c.wf(),
        f < c.names@.len(),
    ensures
        after_enable(c.adj(), after_enable(c.adj(), c.enabled@, f), f) == after_enable(
            c.adj(),
            c.enabled@,
            f,
        ),
{
    assert(after_enable(c.adj(), after_enable(c.adj(), c.enabled@, f), f) =~= after_enable(
        c.adj(),
        c.enabled@,
        f,
    ));
}

/// Disabling a feature twice leaves the same flags as disabling it once.
pub proof fn lemma_disable_idempotent(c: &Crate, f: usize)
    requires
        c.wf(),
        f < c.names@.len(),
    ensures
        after_disable(c.adj(), after_disable(c.adj(), c.enabled@, f), f) == after_disable(
            c.adj(),
            c.enabled@,
            f,
        ),
{
    assert(after_disable(c.adj(), after_disable(c.adj(), c.enabled@, f), f) =~= after_disable(
        c.adj(),
        c.enabled@,
        f,
    ));
}

/// After enabling `f`, every feature reachable from `f` is enabled, and no
/// enabled feature implies a disabled one.
pub proof fn lemma_enable_closure(c: &Crate, f: usize)
    requires
        c.wf(),
        f < c.names@.len(),
    ensures
        forall|j: usize|
            j < c.names@.len() && #[trigger] reaches(c.adj(), f, j) ==> after_enable(
                c.adj(),
                c.enabled@,
                f,
            )[j as int],
        closed(c.adj(), after_enable(c.adj(), c.enabled@, f)),
{
    let adj = c.adj();
    let e = after_enable(adj, c.enabled@, f);
    assert forall|a: usize, b: usize| #[trigger] edge(adj, a, b) && e[a as int] implies e[b as int] by {
        assert(c.adj().len() == c.names@.len());
        assert(b < c.names@.len());
        if reaches(adj, f, a) {
            lemma_reaches_step(adj, f, a, b);
        }
    }
}

/// After disabling `f`, every feature from which `f` is reachable is
/// disabled, and no enabled feature implies a disabled one.
pub proof fn lemma_disable_closure(c: &Crate, f: usize)
    requires
        c.wf(),
        f < c.names@.len(),
    ensures
        forall|j: usize|
            j < c.names@.len() && #[trigger] reaches(c.adj(), j, f) ==> !after_disable(
                c.adj(),
                c.enabled@,
                f,
            )[j as int],
        closed(c.adj(), after_disable(c.adj(), c.enabled@, f)),
{
    let adj = c.adj();
    let e = after_disable(adj, c.enabled@, f);
    assert forall|a: usize, b: usize| #[trigger] edge(adj, a, b) && e[a as int] implies e[b as int] by {
        assert(b < c.names@.len());
        if reaches(adj, b, f) {
            crate::graph::lemma_reaches_prepend(adj, a, b, f);
        }
    }
}

proof fn lemma_last_edge(adj: Seq<Seq<usize>>, j: usize, f: usize)
    requires
        reaches(adj, j, f),
        j != f,
    ensures
        exists|h: usize| #[trigger] edge(adj, h, f),
{
    let p = choose|p: Seq<usize>| #[trigger] is_path(adj, p) && p.len() >= 1 && p[0] == j && p.last() == f;
    let k = p.len() - 2;
    assert(edge(adj, p[k], p[k + 1]));
}

proof fn lemma_first_edge(adj: Seq<Seq<usize>>, f: usize, j: usize)
    requires
        reaches(adj, f, j),
        j != f,
    ensures
        exists|s: usize| #[trigger] edge(adj, f, s) && reaches(adj, s, j),
{
    let p = choose|p: Seq<usize>| #[trigger] is_path(adj, p) && p.len() >= 1 && p[0] == f && p.last() == j;
    let q = p.drop_first();
    assert(p.len() >= 2);
    assert(edge(adj, p[0], p[0int + 1]));
    assert forall|m: int| 0 <= m < q.len() - 1 implies #[trigger] edge(adj, q[m], q[m + 1]) by {
        assert(edge(adj, p[m + 1], p[(m + 1) + 1]));
    }
    assert(is_path(adj, q) && q[0] == p[1] && q.last() == j);
}

/// For a disabled feature that nothing depends on and whose implied
/// features are already enabled, enabling then disabling it gives back the
/// flags it started from.
pub proof fn lemma_enable_disable_round_trip(c: &Crate, f: usize)
    requires
        c.wf(),
        f < c.names@.len(),
        !c.enabled@[f as int],
        forall|h: usize| !#[trigger] edge(c.adj(), h, f),
        forall|s: usize| #[trigger] edge(c.adj(), f, s) ==> c.enabled@[s as int],
    ensures
        after_disable(c.adj(), after_enable(c.adj(), c.enabled@, f), f) == c.enabled@,
{
    let adj = c.adj();
    let en = c.enabled@;
    let r = after_disable(adj, after_enable(adj, en, f), f);
    assert forall|j: int| 0 <= j < en.len() implies r[j] == en[j] by {
        let u = j as usize;
        if u != f {
            if reaches(adj, u, f) {
                lemma_last_edge(adj, u, f);
            }
            if reaches(adj, f, u) {
                lemma_first_edge(adj, f, u);
                let s = choose|s: usize| #[trigger] edge(adj, f, s) && reaches(adj, s, u);
                lemma_closed_reaches(adj, en, s, u);
            }
        } else {
            crate::graph::lemma_reaches_refl(adj, f);
        }
    }
    assert(r =~= en);
}

/// Whether the default set is in use depends on the default features'
/// flags alone: any other feature may be on or off.
pub proof fn lemma_uses_default_ignores_others(c1: &Crate, c2: &Crate)
    requires
        c1.shape_ok(),
        c2.names@ == c1.names@,
        c2.default_features@ == c1.default_features@,
        c2.enabled@.len() == c1.enabled@.len(),
        forall|i: int|
            0 <= i < c1.names@.len() && c1.defaults_view().contains(#[trigger] c1.names@[i]@)
                ==> c1.enabled@[i] == c2.enabled@[i],
    ensures
        c1.uses_default_spec() == c2.uses_default_spec(),
{
    assert forall|k: int| 0 <= k < c1.default_features@.len() implies #[trigger] c1.is_on(
        c1.default_features@[k]@,
    ) == c2.is_on(c1.default_features@[k]@) by {
        let d = c1.default_features@[k]@;
        assert(c1.defaults_view()[k] == d);
        assert(c1.defaults_view().contains(d));
        assert(c1.has_feature(d) == c2.has_feature(d));
        if c1.has_feature(d) {
            let i = c1.index_of(d);
            assert(c2.index_of(d) == i);
            assert(0 <= i < c1.names@.len() && c1.names@[i as int]@ == d);
            assert(c1.enabled@[i as int] == c2.enabled@[i as int]);
        }
    }
    if c1.uses_default_spec() {
        assert forall|k: int| 0 <= k < c2.default_features@.len() implies #[trigger] c2.is_on(
            c2.default_features@[k]@,
        ) by {
            assert(c1.is_on(c1.default_features@[k]@));
        }
    }
    if c2.uses_default_spec() {
        assert forall|k: int| 0 <= k < c1.default_features@.len() implies #[trigger] c1.is_on(
            c1.default_features@[k]@,
        ) by {
            assert(c2.is_on(c2.default_features@[k]@));
        }
    }
}

proof fn lemma_list_where_contains(c: &Crate, k: int, p: spec_fn(int) -> bool, x: Seq<char>)
    requires
        0 <= k <= c.names@.len(),
    ensures
        c.list_where(k, p).contains(x) <==> exists|i: int| 0 <= i < k && p(i) && #[trigger] c.names@[i]@ == x,
    decreases k,
{
    if k > 0 {
        lemma_list_where_contains(c, k - 1, p, x);
        let prev = c.list_where(k - 1, p);
        if p(k - 1) {
            let cur = prev.push(c.names@[k - 1]@);
            if cur.contains(x) {
                let m = choose|m: int| 0 <= m < cur.len() && cur[m] == x;
                if m < prev.len() {
                    assert(prev[m] == x);
                }
            }
            if prev.contains(x) {
                let m = choose|m: int| 0 <= m < prev.len() && prev[m] == x;
                assert(cur[m] == x);
            }
            if c.names@[k - 1]@ == x {
                assert(cur[prev.len() as int] == x);
            }
        }
    }
}

proof fn lemma_list_where_same(c: &Crate, d: &Crate, k: int, p: spec_fn(int) -> bool, q: spec_fn(int) -> bool)
    requires
        c.names@ == d.names@,
        forall|i: int| 0 <= i < k ==> #[trigger] p(i) == q(i),
    ensures
        c.list_where(k, p) == d.list_where(k, q),
    decreases k,
{
    if k > 0 {
        lemma_list_where_same(c, d, k - 1, p, q);
    }
}

/// The listed features leave out every default feature when the default
/// set is in use, and are exactly the enabled features when it is not.
pub proof fn lemma_enabled_non_default(c: &Crate)
    requires
        c.shape_ok(),
    ensures
        c.uses_default_spec() ==> forall|x: Seq<char>|
            #[trigger] c.defaults_view().contains(x) ==> !c.enabled_non_default_spec().contains(x),
        !c.uses_default_spec() ==> c.enabled_non_default_spec() == c.all_enabled_spec(),
{
    let n = c.names@.len() as int;
    let skip = c.uses_default_spec();
    let p = |i: int| c.enabled@[i] && !(skip && c.defaults_view().contains(c.names@[i]@));
    if skip {
        assert forall|x: Seq<char>| #[trigger] c.defaults_view().contains(x) implies !c.enabled_non_default_spec().contains(x) by {
            lemma_list_where_contains(c, n, p, x);
        }
    } else {
        lemma_list_where_same(c, c, n, p, |i: int| c.enabled@[i]);
    }
}

/// No protected feature is ever accepted for removal.
pub proof fn lemma_accepted_not_ignored(p: &Pruner, dep: &Crate, k: int)
    requires
        p.wf(dep),
        0 <= k < p.accepted@.len(),
    ensures
        !holds_name(p.ignored@, p.accepted@[k]@),
{
    lemma_chosen_from(p.cands_view(), p.outcomes@, k);
    let m = choose|m: int| 0 <= m < p.cands_view().len() && p.cands_view()[m] == chosen_at(p, k);
    assert(p.accepted_view()[k] == p.accepted@[k]@);
    assert(p.candidates@[m]@ == p.cands_view()[m]);
}

spec fn chosen_at(p: &Pruner, k: int) -> Seq<char> {
    crate::prune::chosen(p.cands_view(), p.outcomes@)[k]
}

/// Two states of a dependency with the same graph and the same flags are
/// written back identically; a dry run, which ends with the flags it began
/// with, thus leaves the manifest as it was.
pub proof fn lemma_same_flags_same_entry(before: &Crate, after: &Crate)
    requires
        before.shape_ok(),
        after.same_graph(before),
        after.enabled@ == before.enabled@,
    ensures
        after.uses_default_spec() == before.uses_default_spec(),
        after.enabled_non_default_spec() == before.enabled_non_default_spec(),
        is_bare(after) == is_bare(before),
        after.version@ == before.version@,
{
    lemma_uses_default_ignores_others(before, after);
    let skip = before.uses_default_spec();
    lemma_list_where_same(
        after,
        before,
        before.names@.len() as int,
        |i: int| after.enabled@[i] && !(skip && after.defaults_view().contains(after.names@[i]@)),
        |i: int| before.enabled@[i] && !(skip && before.defaults_view().contains(before.names@[i]@)),
    );
}

} // verus!
