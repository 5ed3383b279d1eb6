use vstd::prelude::*;

use crate::graph::{
    after_disable, after_enable, closed, contains_name, count_eq, edge, edges_in_bounds, has_char, holds_name, insert_name,
    key_lt, lemma_closed_reaches, lemma_count_eq_set, lemma_reaches_prepend, lemma_reaches_refl,
    lemma_reaches_step, position, reaches, sorted_names, spells,
};

verus! {

/// Failures of the operations on a dependency's features.
#[derive(Debug, Clone, Copy, PartialEq, Eq, Structural)]
pub enum FeatureError {
    /// No feature of that name exists on the dependency.
    UnknownFeature,
    /// An index no longer addresses an entry of the list it was taken from.
    StaleSelection,
    /// The manifest declares no dependencies.
    NoDependenciesFound,
    /// The build check could not be run or gave no exit status.
    OracleUnavailable,
    /// The ignore list exists but is not a map from names to lists.
    IgnoreListMalformed,
}

/// The key under which a registry entry lists its default features.
pub open spec fn default_word() -> Seq<char> {
    seq!['d', 'e', 'f', 'a', 'u', 'l', 't']
}

/// A name that refers to a feature of the same package (no `dep:` or
/// `package/feature` syntax).
pub open spec fn is_local(s: Seq<char>) -> bool {
    !s.contains(':') && !s.contains('/')
}

/// The local names of `s`, in order.
pub open spec fn keep_local(s: Seq<Seq<char>>) -> Seq<Seq<char>>
    decreases s.len(),
{
    if s.len() == 0 {
        Seq::empty()
    } else if is_local(s.last()) {
        keep_local(s.drop_last()).push(s.last())
    } else {
        keep_local(s.drop_last())
    }
}

proof fn lemma_keep_local(s: Seq<Seq<char>>, k: int)
    requires
        0 <= k < keep_local(s).len(),
    ensures
        is_local(keep_local(s)[k]),
        s.contains(keep_local(s)[k]),
    decreases s.len(),
{
    if s.len() > 0 {
        let t = keep_local(s.drop_last());
        if is_local(s.last()) && k == t.len() {
            assert(s[s.len() - 1] == s.last());
        } else {
            lemma_keep_local(s.drop_last(), k);
            let m = choose|m: int| 0 <= m < s.drop_last().len() && s.drop_last()[m] == t[k];
            assert(s[m] == t[k]);
        }
    }
}

/// What the registry says of one version of a package.
pub struct CrateData {
    pub name: String,
    pub version: String,
    /// Each feature with the names it implies; `default` lists the default set.
    pub features: Vec<(String, Vec<String>)>,
    /// Optional dependencies, each an implicit feature.
    pub optional_dependencies: Vec<String>,
}

impl CrateData {
    pub open spec fn key(&self, i: int) -> Seq<char> {
        self.features@[i].0@
    }

    pub open spec fn subs(&self, i: int) -> Seq<String> {
        self.features@[i].1@
    }

    /// The features form a map: no name is listed twice.
    pub open spec fn keys_unique(&self) -> bool {
        forall|i: int, j: int|
            0 <= i < j < self.features@.len() ==> #[trigger] self.key(i) != #[trigger] self.key(j)
    }

    /// Entry `i` puts a feature named `n` into the graph.
    pub open spec fn contributes(&self, i: int, n: Seq<char>) -> bool {
        self.key(i) != default_word() && (self.key(i) == n || (is_local(n) && holds_name(
            self.subs(i),
            n,
        )))
    }

    /// `n` is a node of the graph built from this data.
    pub open spec fn is_node_name(&self, n: Seq<char>) -> bool {
        (exists|i: int| 0 <= i < self.features@.len() && #[trigger] self.contributes(i, n))
            || holds_name(self.optional_dependencies@, n)
    }

    /// The default feature list, as given.
    pub open spec fn defaults_spec(&self) -> Seq<Seq<char>> {
        if exists|i: int| 0 <= i < self.features@.len() && #[trigger] self.key(i) == default_word() {
            let i = choose|i: int| 0 <= i < self.features@.len() && #[trigger] self.key(i) == default_word();
            self.subs(i).map_values(|t: String| t@)
        } else {
            Seq::empty()
        }
    }

    /// The local names that feature `n` implies.
    pub open spec fn local_subs_of(&self, n: Seq<char>) -> Seq<Seq<char>> {
        if n != default_word() && exists|i: int| 0 <= i < self.features@.len() && #[trigger] self.key(i) == n {
            let i = choose|i: int| 0 <= i < self.features@.len() && #[trigger] self.key(i) == n;
            keep_local(self.subs(i).map_values(|t: String| t@))
        } else {
            Seq::empty()
        }
    }
}

fn is_default_key(s: &String) -> (r: bool)
    ensures
        r == (s@ == default_word()),
{
    let r = spells(s, "default");
    proof {
        reveal_strlit("default");
        assert("default"@ =~= default_word());
    }
    r
}

fn is_local_name(s: &String) -> (r: bool)
    ensures
        r == is_local(s@),
{
    !has_char(s, ':') && !has_char(s, '/')
}

/// The local names among `subs`, in order.
fn local_names(subs: &Vec<String>) -> (r: Vec<String>)
    ensures
        r@.map_values(|t: String| t@) == keep_local(subs@.map_values(|t: String| t@)),
{
    let mut out: Vec<String> = Vec::new();
    let mut k: usize = 0;
    assert(subs@.map_values(|t: String| t@).take(0) =~= Seq::<Seq<char>>::empty());
    while k < subs.len()
        invariant
            k <= subs@.len(),
            out@.map_values(|t: String| t@) == keep_local(subs@.map_values(|t: String| t@).take(k as int)),
        decreases subs@.len() - k,
    {
        let ghost sv = subs@.map_values(|t: String| t@);
        assert(sv.take(k + 1).drop_last() =~= sv.take(k as int));
        assert(sv.take(k + 1).last() == subs@[k as int]@);
        if is_local_name(&subs[k]) {
            let ghost prev = out@;
            out.push(subs[k].clone());
            assert(out@.map_values(|t: String| t@) =~= prev.map_values(|t: String| t@).push(subs@[k as int]@));
        }
        k = k + 1;
    }
    assert(subs@.map_values(|t: String| t@).take(subs@.len() as int) =~= subs@.map_values(|t: String| t@));
    out
}

/// The entry whose key reads `n`, if any.
fn find_entry(data: &CrateData, n: &String) -> (r: Option<usize>)
    ensures
        match r {
            Some(e) => e < data.features@.len() && data.key(e as int) == n@,
            None => forall|i: int| 0 <= i < data.features@.len() ==> #[trigger] data.key(i) != n@,
        },
{
    let mut e: usize = 0;
    while e < data.features.len()
        invariant
            e <= data.features@.len(),
            forall|i: int| 0 <= i < e ==> #[trigger] data.key(i) != n@,
        decreases data.features@.len() - e,
    {
        if data.features[e].0 == *n {
            return Some(e);
        }
        e = e + 1;
    }
    None
}

/// The default feature list, as the registry gives it.
fn default_list(data: &CrateData) -> (r: Vec<String>)
    requires
        data.keys_unique(),
    ensures
        r@.map_values(|t: String| t@) == data.defaults_spec(),
{
    let mut e: usize = 0;
    while e < data.features.len()
        invariant
            data.keys_unique(),
            e <= data.features@.len(),
            forall|i: int| 0 <= i < e ==> #[trigger] data.key(i) != default_word(),
        decreases data.features@.len() - e,
    {
        if is_default_key(&data.features[e].0) {
            let r = data.features[e].1.clone();
            proof {
                let i = choose|i: int| 0 <= i < data.features@.len() && #[trigger] data.key(i) == default_word();
                if i != e {
                    if i < e {
                        assert(data.key(i) != data.key(e as int));
                    } else {
                        assert(data.key(e as int) != data.key(i));
                    }
                }
                assert(r@.map_values(|t: String| t@) =~= data.subs(e as int).map_values(|t: String| t@));
            }
            return r;
        }
        e = e + 1;
    }
    let r: Vec<String> = Vec::new();
    assert(r@.map_values(|t: String| t@) =~= Seq::<Seq<char>>::empty());
    r
}

/// Every feature name the data gives, in display order, each once.
fn collect_names(data: &CrateData, defaults: &Vec<String>) -> (r: Vec<String>)
    ensures
        sorted_names(r@, defaults@.map_values(|t: String| t@)),
        forall|x: Seq<char>| #[trigger] holds_name(r@, x) == data.is_node_name(x),
{
    let mut names: Vec<String> = Vec::new();
    let mut e: usize = 0;
    while e < data.features.len()
        invariant
            e <= data.features@.len(),
            sorted_names(names@, defaults@.map_values(|t: String| t@)),
            forall|x: Seq<char>|
                #[trigger] holds_name(names@, x) == exists|i: int| 0 <= i < e && #[trigger] data.contributes(i, x),
        decreases data.features@.len() - e,
    {
        let key = &data.features[e].0;
        if !is_default_key(key) {
            insert_name(&mut names, key.clone(), defaults);
            let subs = &data.features[e].1;
            let mut k: usize = 0;
            while k < subs.len()
                invariant
                    e < data.features@.len(),
                    subs@ == data.subs(e as int),
                    key@ == data.key(e as int),
                    key@ != default_word(),
                    k <= subs@.len(),
                    sorted_names(names@, defaults@.map_values(|t: String| t@)),
                    forall|x: Seq<char>|
                        #[trigger] holds_name(names@, x) == ((exists|i: int| 0 <= i < e && #[trigger] data.contributes(i, x))
                            || x == key@ || (is_local(x) && exists|m: int| 0 <= m < k && #[trigger] subs@[m]@ == x)),
                decreases subs@.len() - k,
            {
                if is_local_name(&subs[k]) {
                    insert_name(&mut names, subs[k].clone(), defaults);
                }
                assert forall|x: Seq<char>|
                    #[trigger] holds_name(names@, x) == ((exists|i: int| 0 <= i < e && #[trigger] data.contributes(i, x))
                        || x == key@ || (is_local(x) && exists|m: int| 0 <= m < k + 1 && #[trigger] subs@[m]@ == x)) by {
                    if is_local(x) && subs@[k as int]@ == x {
                        assert(exists|m: int| 0 <= m < k + 1 && #[trigger] subs@[m]@ == x);
                    }
                    if exists|m: int| 0 <= m < k + 1 && #[trigger] subs@[m]@ == x {
                        let m = choose|m: int| 0 <= m < k + 1 && #[trigger] subs@[m]@ == x;
                        if m < k {
                            assert(exists|m: int| 0 <= m < k && #[trigger] subs@[m]@ == x);
                        }
                    }
                }
                k = k + 1;
            }
            assert forall|x: Seq<char>|
                #[trigger] holds_name(names@, x) == exists|i: int| 0 <= i < e + 1 && #[trigger] data.contributes(i, x) by {
                if data.contributes(e as int, x) {
                    if x != key@ {
                        let m = choose|m: int| 0 <= m < data.subs(e as int).len() && #[trigger] data.subs(e as int)[m]@ == x;
                        assert(subs@[m]@ == x);
                    }
                }
                if exists|i: int| 0 <= i < e + 1 && #[trigger] data.contributes(i, x) {
                    let i = choose|i: int| 0 <= i < e + 1 && #[trigger] data.contributes(i, x);
                    if i < e {
                        assert(exists|i: int| 0 <= i < e && #[trigger] data.contributes(i, x));
                    } else if x != key@ {
                        assert(is_local(x) && holds_name(data.subs(e as int), x));
                    }
                }
                if is_local(x) && exists|m: int| 0 <= m < subs@.len() && #[trigger] subs@[m]@ == x {
                    let m = choose|m: int| 0 <= m < subs@.len() && #[trigger] subs@[m]@ == x;
                    assert(data.subs(e as int)[m]@ == x);
                    assert(data.contributes(e as int, x));
                }
            }
        } else {
            assert forall|x: Seq<char>|
                #[trigger] holds_name(names@, x) == exists|i: int| 0 <= i < e + 1 && #[trigger] data.contributes(i, x) by {
                if exists|i: int| 0 <= i < e + 1 && #[trigger] data.contributes(i, x) {
                    let i = choose|i: int| 0 <= i < e + 1 && #[trigger] data.contributes(i, x);
                    assert(i != e);
                }
            }
        }
        e = e + 1;
    }
    let mut o: usize = 0;
    while o < data.optional_dependencies.len()
        invariant
            e == data.features@.len(),
            o <= data.optional_dependencies@.len(),
            sorted_names(names@, defaults@.map_values(|t: String| t@)),
            forall|x: Seq<char>|
                #[trigger] holds_name(names@, x) == ((exists|i: int| 0 <= i < e && #[trigger] data.contributes(i, x))
                    || exists|m: int| 0 <= m < o && #[trigger] data.optional_dependencies@[m]@ == x),
        decreases data.optional_dependencies@.len() - o,
    {
        insert_name(&mut names, data.optional_dependencies[o].clone(), defaults);
        assert forall|x: Seq<char>|
            #[trigger] holds_name(names@, x) == ((exists|i: int| 0 <= i < e && #[trigger] data.contributes(i, x))
                || exists|m: int| 0 <= m < o + 1 && #[trigger] data.optional_dependencies@[m]@ == x) by {
            if exists|m: int| 0 <= m < o + 1 && #[trigger] data.optional_dependencies@[m]@ == x {
                let m = choose|m: int| 0 <= m < o + 1 && #[trigger] data.optional_dependencies@[m]@ == x;
                if m < o {
                    assert(exists|m: int| 0 <= m < o && #[trigger] data.optional_dependencies@[m]@ == x);
                }
            }
        }
        o = o + 1;
    }
    names
}

/// A dependency together with the graph of its features.
///
/// Features are kept in display order (default features first, then by
/// name); feature `i` implies the features at the indices `implies[i]`.
pub struct Crate {
    pub name: String,
    pub version: String,
    pub names: Vec<String>,
    pub enabled: Vec<bool>,
    pub implies: Vec<Vec<usize>>,
    pub sub_features: Vec<Vec<String>>,
    pub default_features: Vec<String>,
}

impl Crate {
    /// Implication edges by index.
    pub open spec fn adj(&self) -> Seq<Seq<usize>> {
        self.implies@.map_values(|v: Vec<usize>| v@)
    }

    /// Feature names in display order.
    pub open spec fn names_view(&self) -> Seq<Seq<char>> {
        self.names@.map_values(|s: String| s@)
    }

    /// The names of the default feature set.
    pub open spec fn defaults_view(&self) -> Seq<Seq<char>> {
        self.default_features@.map_values(|s: String| s@)
    }

    /// Which features are enabled, by index.
    pub open spec fn enabled_view(&self) -> Seq<bool> {
        self.enabled@
    }

    pub open spec fn len(&self) -> nat {
        self.names@.len()
    }

    pub open spec fn has_feature(&self, n: Seq<char>) -> bool {
        exists|i: int| 0 <= i < self.names@.len() && #[trigger] self.names@[i]@ == n
    }

    /// The index of the feature named `n`.
    pub open spec fn index_of(&self, n: Seq<char>) -> usize {
        choose|i: usize| i < self.names@.len() && #[trigger] self.names@[i as int]@ == n
    }

    /// Whether the feature named `n` is currently enabled.
    pub open spec fn is_on(&self, n: Seq<char>) -> bool {
        self.has_feature(n) && self.enabled@[self.index_of(n) as int]
    }

    /// Structure of the graph, whatever the enabled flags say.
    pub open spec fn shape_ok(&self) -> bool {
        &&& self.names@.len() <= usize::MAX
        &&& self.enabled@.len() == self.names@.len()
        &&& self.implies@.len() == self.names@.len()
        &&& self.sub_features@.len() == self.names@.len()
        &&& edges_in_bounds(self.adj())
        &&& forall|i: int, j: int|
            0 <= i < j < self.names@.len() ==> key_lt(
                self.defaults_view(),
                #[trigger] self.names@[i]@,
                #[trigger] self.names@[j]@,
            )
        &&& forall|i: int|
            0 <= i < self.names@.len() ==> #[trigger] self.implies@[i]@.len()
                == self.sub_features@[i]@.len()
        &&& forall|i: int, k: int|
            0 <= i < self.names@.len() && 0 <= k < self.implies@[i]@.len() ==> self.names@[#[trigger] self.implies@[i]@[k] as int]@
                == self.sub_features@[i]@[k]@
    }

    /// Well-formed: the structure holds and every enabled feature has its
    /// implied features enabled.
    pub open spec fn wf(&self) -> bool {
        self.shape_ok() && closed(self.adj(), self.enabled@)
    }

    /// Everything but the enabled flags is the same.
    pub open spec fn same_graph(&self, other: &Crate) -> bool {
        &&& self.name@ == other.name@
        &&& self.version@ == other.version@
        &&& self.names@ == other.names@
        &&& self.implies@ == other.implies@
        &&& self.sub_features@ == other.sub_features@
        &&& self.default_features@ == other.default_features@
    }

    /// Names are distinct, which follows from the strict display order.
    pub proof fn lemma_names_distinct(&self, i: int, j: int)
        requires
            self.shape_ok(),
            0 <= i < self.names@.len(),
            0 <= j < self.names@.len(),
            i != j,
        ensures
            self.names@[i]@ != self.names@[j]@,
    {
        if i < j {
            assert(key_lt(self.defaults_view(), self.names@[i]@, self.names@[j]@));
        } else {
            assert(key_lt(self.defaults_view(), self.names@[j]@, self.names@[i]@));
        }
        crate::graph::lemma_key_irrefl(self.defaults_view(), self.names@[i]@);
    }

    pub proof fn lemma_index_of(&self, i: usize)
        requires
            self.shape_ok(),
            i < self.names@.len(),
        ensures
            self.has_feature(self.names@[i as int]@),
            self.index_of(self.names@[i as int]@) == i,
    {
        let n = self.names@[i as int]@;
        let j = self.index_of(n);
        if j != i {
            self.lemma_names_distinct(i as int, j as int);
        }
    }

    proof fn lemma_adj(&self, g: usize)
        requires
            self.shape_ok(),
            g < self.names@.len(),
        ensures
            self.adj()[g as int] == self.implies@[g as int]@,
            self.adj().len() == self.names@.len(),
    {
    }

    /// Enables feature `f` and everything it implies.
    pub(crate) fn enable_index(&mut self, f: usize)
        requires
            old(self).wf(),
            f < old(self).names@.len(),
        ensures
            final(self).wf(),
            final(self).same_graph(old(self)),
            forall|j: usize|
                j < old(self).names@.len() ==> #[trigger] final(self).enabled@[j as int] == (old(
                    self,
                ).enabled@[j as int] || reaches(old(self).adj(), f, j)),
            final(self).enabled@ == after_enable(old(self).adj(), old(self).enabled@, f),
    {
        let ghost e0 = self.enabled@;
        let ghost adj = self.adj();
        let ghost n = self.names@.len();
        let ghost orig = *self;
        proof {
            lemma_reaches_refl(adj, f);
        }
        let mut stack: Vec<usize> = Vec::new();
        stack.push(f);
        assert(stack@[0] == f);
        while stack.len() > 0
            invariant
                self.shape_ok(),
                self.same_graph(&orig),
                self.adj() == adj,
                n == self.names@.len(),
                e0.len() == n,
                f < n,
                forall|j: usize| j < n && #[trigger] e0[j as int] ==> self.enabled@[j as int],
                forall|j: usize|
                    j < n && #[trigger] self.enabled@[j as int] ==> e0[j as int] || reaches(adj, f, j),
                forall|k: int|
                    0 <= k < stack@.len() ==> #[trigger] stack@[k] < n && reaches(adj, f, stack@[k]),
                forall|a: usize, b: usize|
                    #[trigger] edge(adj, a, b) && self.enabled@[a as int] && !self.enabled@[b as int]
                        ==> stack@.contains(b),
                self.enabled@[f as int] || stack@.contains(f),
            decreases count_eq(self.enabled@, false), stack@.len(),
        {
            let ghost before = stack@;
            let g = stack.pop().unwrap();
            assert(before == stack@.push(g));
            assert(forall|x: usize| before.contains(x) && x != g ==> stack@.contains(x)) by {
                assert forall|x: usize| before.contains(x) && x != g implies stack@.contains(x) by {
                    let k = choose|k: int| 0 <= k < before.len() && before[k] == x;
                    assert(stack@[k] == x);
                }
            }
            assert(reaches(adj, f, g) && g < n) by {
                assert(before[before.len() - 1] == g);
            }
            if !self.enabled[g] {
                let ghost en_before = self.enabled@;
                self.enabled.set(g, true);
                proof {
                    lemma_count_eq_set(en_before, g as int, true, false);
                }
                proof {
                    self.lemma_adj(g);
                }
                let mut k: usize = 0;
                let ghost stack_mid = stack@;
                while k < self.implies[g].len()
                    invariant
                        self.shape_ok(),
                        self.same_graph(&orig),
                        self.adj() == adj,
                        n == self.names@.len(),
                        g < n,
                        e0.len() == n,
                        f < n,
                        self.enabled@[g as int],
                        reaches(adj, f, g),
                        adj[g as int] == self.implies@[g as int]@,
                        k <= self.implies@[g as int]@.len(),
                        forall|j: usize| j < n && #[trigger] e0[j as int] ==> self.enabled@[j as int],
                        forall|j: usize|
                            j < n && #[trigger] self.enabled@[j as int] ==> e0[j as int] || reaches(
                                adj,
                                f,
                                j,
                            ),
                        forall|i: int|
                            0 <= i < stack@.len() ==> #[trigger] stack@[i] < n && reaches(
                                adj,
                                f,
                                stack@[i],
                            ),
                        forall|a: usize, b: usize|
                            #[trigger] edge(adj, a, b) && self.enabled@[a as int]
                                && !self.enabled@[b as int] && a != g ==> stack@.contains(b),
                        forall|m: int|
                            0 <= m < k ==> stack@.contains(#[trigger] self.implies@[g as int]@[m]),
                        self.enabled@[f as int] || stack@.contains(f),
                        self.enabled@ == en_before.update(g as int, true),
                        stack_mid.len() <= stack@.len(),
                    decreases self.implies@[g as int]@.len() - k,
                {
                    let s = self.implies[g][k];
                    proof {
                        assert(adj[g as int].contains(s));
                        assert(edge(adj, g, s));
                        lemma_reaches_step(adj, f, g, s);
                    }
                    let ghost st0 = stack@;
                    stack.push(s);
                    assert(forall|x: usize| st0.contains(x) ==> stack@.contains(x)) by {
                        assert forall|x: usize| st0.contains(x) implies stack@.contains(x) by {
                            let i = choose|i: int| 0 <= i < st0.len() && st0[i] == x;
                            assert(stack@[i] == x);
                        }
                    }
                    assert(stack@[stack@.len() - 1] == s);
                    k = k + 1;
                }
                assert forall|a: usize, b: usize|
                    #[trigger] edge(adj, a, b) && self.enabled@[a as int] && !self.enabled@[b as int]
                        implies stack@.contains(b) by {
                    if a == g {
                        let m = choose|m: int| 0 <= m < adj[g as int].len() && adj[g as int][m] == b;
                        assert(stack@.contains(self.implies@[g as int]@[m]));
                    }
                }
            }
        }
        assert(closed(adj, self.enabled@));
        assert forall|j: usize| j < n implies #[trigger] self.enabled@[j as int] == (e0[j as int]
            || reaches(adj, f, j)) by {
            if reaches(adj, f, j) {
                lemma_closed_reaches(adj, self.enabled@, f, j);
            }
        }
        assert forall|j: int| 0 <= j < n implies self.enabled@[j] == after_enable(adj, e0, f)[j] by {
            let u = j as usize;
            assert(self.enabled@[u as int] == (e0[u as int] || reaches(adj, f, u)));
        }
        assert(self.enabled@ =~= after_enable(adj, e0, f));
    }

    /// Whether feature `h` lists feature `g` among those it implies.
    fn implies_contains(&self, h: usize, g: usize) -> (r: bool)
        requires
            self.shape_ok(),
            h < self.names@.len(),
        ensures
            r == edge(self.adj(), h, g),
    {
        let v = &self.implies[h];
        assert(self.adj().len() == self.names@.len());
        let mut k: usize = 0;
        while k < v.len()
            invariant
                self.shape_ok(),
                h < self.names@.len(),
                self.adj().len() == self.names@.len(),
                v@ == self.adj()[h as int],
                k <= v@.len(),
                forall|m: int| 0 <= m < k ==> v@[m] != g,
            decreases v.len() - k,
        {
            if v[k] == g {
                assert(self.adj()[h as int][k as int] == g);
                return true;
            }
            k = k + 1;
        }
        false
    }

    /// Disables feature `f` and every feature that depends on it.
    pub(crate) fn disable_index(&mut self, f: usize)
        requires
            old(self).wf(),
            f < old(self).names@.len(),
        ensures
            final(self).wf(),
            final(self).same_graph(old(self)),
            forall|j: usize|
                j < old(self).names@.len() ==> #[trigger] final(self).enabled@[j as int] == (old(
                    self,
                ).enabled@[j as int] && !reaches(old(self).adj(), j, f)),
            final(self).enabled@ == after_disable(old(self).adj(), old(self).enabled@, f),
    {
        let ghost e0 = self.enabled@;
        let ghost adj = self.adj();
        let ghost n = self.names@.len();
        let ghost orig = *self;
        let len = self.names.len();
        proof {
            lemma_reaches_refl(adj, f);
        }
        let mut stack: Vec<usize> = Vec::new();
        stack.push(f);
        assert(stack@[0] == f);
        while stack.len() > 0
            invariant
                self.shape_ok(),
                self.same_graph(&orig),
                self.adj() == adj,
                n == self.names@.len(),
                len == n,
                e0.len() == n,
                closed(adj, e0),
                f < n,
                forall|j: usize| j < n && #[trigger] self.enabled@[j as int] ==> e0[j as int],
                forall|j: usize|
                    j < n && #[trigger] e0[j as int] && !self.enabled@[j as int] ==> reaches(adj, j, f),
                forall|k: int|
                    0 <= k < stack@.len() ==> #[trigger] stack@[k] < n && reaches(adj, stack@[k], f),
                forall|a: usize, b: usize|
                    #[trigger] edge(adj, a, b) && self.enabled@[a as int] && !self.enabled@[b as int]
                        ==> stack@.contains(a),
                !self.enabled@[f as int] || stack@.contains(f),
            decreases count_eq(self.enabled@, true), stack@.len(),
        {
            let ghost before = stack@;
            let g = stack.pop().unwrap();
            assert(before == stack@.push(g));
            assert(forall|x: usize| before.contains(x) && x != g ==> stack@.contains(x)) by {
                assert forall|x: usize| before.contains(x) && x != g implies stack@.contains(x) by {
                    let k = choose|k: int| 0 <= k < before.len() && before[k] == x;
                    assert(stack@[k] == x);
                }
            }
            assert(reaches(adj, g, f) && g < n) by {
                assert(before[before.len() - 1] == g);
            }
            if self.enabled[g] {
                let ghost en_before = self.enabled@;
                self.enabled.set(g, false);
                proof {
                    lemma_count_eq_set(en_before, g as int, false, true);
                }
                let mut h: usize = 0;
                while h < len
                    invariant
                        self.shape_ok(),
                        self.same_graph(&orig),
                        self.adj() == adj,
                        n == self.names@.len(),
                        len == n,
                        g < n,
                        e0.len() == n,
                        f < n,
                        h <= n,
                        !self.enabled@[g as int],
                        reaches(adj, g, f),
                        forall|j: usize| j < n && #[trigger] self.enabled@[j as int] ==> e0[j as int],
                        forall|j: usize|
                            j < n && #[trigger] e0[j as int] && !self.enabled@[j as int] ==> reaches(
                                adj,
                                j,
                                f,
                            ),
                        forall|i: int|
                            0 <= i < stack@.len() ==> #[trigger] stack@[i] < n && reaches(
                                adj,
                                stack@[i],
                                f,
                            ),
                        forall|a: usize, b: usize|
                            #[trigger] edge(adj, a, b) && self.enabled@[a as int]
                                && !self.enabled@[b as int] && b != g ==> stack@.contains(a),
                        forall|a: usize| a < h && edge(adj, a, g) ==> #[trigger] stack@.contains(a),
                        !self.enabled@[f as int] || stack@.contains(f),
                        self.enabled@ == en_before.update(g as int, false),
                    decreases len - h,
                {
                    let hit = self.implies_contains(h, g);
                    let ghost st_start = stack@;
                    if hit {
                        proof {
                            lemma_reaches_prepend(adj, h, g, f);
                        }
                        let ghost st0 = stack@;
                        stack.push(h);
                        assert(forall|x: usize| st0.contains(x) ==> stack@.contains(x)) by {
                            assert forall|x: usize| st0.contains(x) implies stack@.contains(x) by {
                                let i = choose|i: int| 0 <= i < st0.len() && st0[i] == x;
                                assert(stack@[i] == x);
                            }
                        }
                        assert(stack@[stack@.len() - 1] == h);
                        assert(stack@.contains(h));
                    }
                    assert forall|x: usize| st_start.contains(x) implies stack@.contains(x) by {
                        let i = choose|i: int| 0 <= i < st_start.len() && st_start[i] == x;
                        assert(stack@[i] == x);
                    }
                    assert forall|a: usize| a < h + 1 && edge(adj, a, g) implies #[trigger] stack@.contains(a) by {
                        if a < h {
                            assert(st_start.contains(a));
                        } else {
                            assert(a == h);
                            assert(hit);
                        }
                    }
                    h = h + 1;
                }
                assert forall|a: usize, b: usize|
                    #[trigger] edge(adj, a, b) && self.enabled@[a as int] && !self.enabled@[b as int]
                        implies stack@.contains(a) by {
                    if b == g {
                        assert(a < n);
                    }
                }
            }
        }
        assert(closed(adj, self.enabled@));
        assert forall|j: usize| j < n implies #[trigger] self.enabled@[j as int] == (e0[j as int]
            && !reaches(adj, j, f)) by {
            if self.enabled@[j as int] && reaches(adj, j, f) {
                lemma_closed_reaches(adj, self.enabled@, j, f);
            }
        }
        assert forall|j: int| 0 <= j < n implies self.enabled@[j] == after_disable(adj, e0, f)[j] by {
            let u = j as usize;
            assert(self.enabled@[u as int] == (e0[u as int] && !reaches(adj, u, f)));
        }
        assert(self.enabled@ =~= after_disable(adj, e0, f));
    }

    /// Names of the first `k` features, in display order, that satisfy `p`.
    pub open spec fn list_where(&self, k: int, p: spec_fn(int) -> bool) -> Seq<Seq<char>>
        decreases k,
    {
        if k <= 0 {
            Seq::empty()
        } else if p(k - 1) {
            self.list_where(k - 1, p).push(self.names@[k - 1]@)
        } else {
            self.list_where(k - 1, p)
        }
    }

    /// Every default feature is a feature of the graph and is enabled.
    pub open spec fn uses_default_spec(&self) -> bool {
        forall|k: int| 0 <= k < self.default_features@.len() ==> #[trigger] self.is_on(self.default_features@[k]@)
    }

    /// The enabled features, leaving out the default ones when the default
    /// set is enabled as a whole.
    pub open spec fn enabled_non_default_spec(&self) -> Seq<Seq<char>> {
        let skip = self.uses_default_spec();
        self.list_where(
            self.names@.len() as int,
            |i: int| self.enabled@[i] && !(skip && self.defaults_view().contains(self.names@[i]@)),
        )
    }

    /// All enabled features.
    pub open spec fn all_enabled_spec(&self) -> Seq<Seq<char>> {
        self.list_where(self.names@.len() as int, |i: int| self.enabled@[i])
    }

    /// Enabled features that list feature `f` among those they imply.
    pub open spec fn active_dependents_spec(&self, f: usize) -> Seq<Seq<char>> {
        self.list_where(
            self.names@.len() as int,
            |i: int| edge(self.adj(), i as usize, f) && self.enabled@[i],
        )
    }

    /// Looks a feature up by name.
    fn get_index(&self, feature_name: &String) -> (r: Option<usize>)
        requires
            self.shape_ok(),
        ensures
            match r {
                Some(i) => i < self.names@.len() && self.names@[i as int]@ == feature_name@
                    && self.index_of(feature_name@) == i && self.has_feature(feature_name@),
                None => !self.has_feature(feature_name@),
            },
    {
        let mut i: usize = 0;
        while i < self.names.len()
            invariant
                self.shape_ok(),
                i <= self.names@.len(),
                forall|m: int| 0 <= m < i ==> #[trigger] self.names@[m]@ != feature_name@,
            decreases self.names@.len() - i,
        {
            if self.names[i] == *feature_name {
                proof {
                    self.lemma_index_of(i);
                }
                return Some(i);
            }
            i = i + 1;
        }
        None
    }

    /// Enables the named feature and every feature it implies.
    pub fn enable_feature_usage(&mut self, feature_name: &String) -> (r: Result<(), FeatureError>)
        requires
            old(self).wf(),
        ensures
            final(self).wf(),
            final(self).same_graph(old(self)),
            r is Ok <==> old(self).has_feature(feature_name@),
            r is Err ==> r == Err::<(), FeatureError>(FeatureError::UnknownFeature) && final(self).enabled@
                == old(self).enabled@,
            r is Ok ==> forall|j: usize|
                j < old(self).names@.len() ==> #[trigger] final(self).enabled@[j as int] == (old(
                    self,
                ).enabled@[j as int] || reaches(old(self).adj(), old(self).index_of(feature_name@), j)),
            r is Ok ==> final(self).enabled@ == after_enable(
                old(self).adj(),
                old(self).enabled@,
                old(self).index_of(feature_name@),
            ),
    {
        match self.get_index(feature_name) {
            Some(i) => {
                self.enable_index(i);
                Ok(())
            },
            None => Err(FeatureError::UnknownFeature),
        }
    }

    /// Disables the named feature and every feature that depends on it.
    pub fn disable_feature_usage(&mut self, feature_name: &String) -> (r: Result<(), FeatureError>)
        requires
            old(self).wf(),
        ensures
            final(self).wf(),
            final(self).same_graph(old(self)),
            r is Ok <==> old(self).has_feature(feature_name@),
            r is Err ==> r == Err::<(), FeatureError>(FeatureError::UnknownFeature) && final(self).enabled@
                == old(self).enabled@,
            r is Ok ==> forall|j: usize|
                j < old(self).names@.len() ==> #[trigger] final(self).enabled@[j as int] == (old(
                    self,
                ).enabled@[j as int] && !reaches(old(self).adj(), j, old(self).index_of(feature_name@))),
            r is Ok ==> final(self).enabled@ == after_disable(
                old(self).adj(),
                old(self).enabled@,
                old(self).index_of(feature_name@),
            ),
    {
        match self.get_index(feature_name) {
            Some(i) => {
                self.disable_index(i);
                Ok(())
            },
            None => Err(FeatureError::UnknownFeature),
        }
    }

    /// Disables the feature at `feature_index` if it is enabled, else enables it.
    pub fn toggle_feature_usage(&mut self, feature_index: usize) -> (r: Result<(), FeatureError>)
        requires
            old(self).wf(),
        ensures
            final(self).wf(),
            final(self).same_graph(old(self)),
            r is Ok <==> feature_index < old(self).names@.len(),
            r is Err ==> r == Err::<(), FeatureError>(FeatureError::StaleSelection) && final(self).enabled@
                == old(self).enabled@,
            r is Ok && old(self).enabled@[feature_index as int] ==> forall|j: usize|
                j < old(self).names@.len() ==> #[trigger] final(self).enabled@[j as int] == (old(
                    self,
                ).enabled@[j as int] && !reaches(old(self).adj(), j, feature_index)),
            r is Ok && !old(self).enabled@[feature_index as int] ==> forall|j: usize|
                j < old(self).names@.len() ==> #[trigger] final(self).enabled@[j as int] == (old(
                    self,
                ).enabled@[j as int] || reaches(old(self).adj(), feature_index, j)),
    {
        if feature_index >= self.names.len() {
            return Err(FeatureError::StaleSelection);
        }
        if self.enabled[feature_index] {
            self.disable_index(feature_index);
        } else {
            self.enable_index(feature_index);
        }
        Ok(())
    }

    /// Names of the features whose index satisfies `p`, in display order.
    fn collect_where(&self, p: Ghost<spec_fn(int) -> bool>, sel: Vec<bool>) -> (r: Vec<String>)
        requires
            self.shape_ok(),
            sel@.len() == self.names@.len(),
            forall|i: int| 0 <= i < sel@.len() ==> #[trigger] sel@[i] == p@(i),
        ensures
            r@.map_values(|s: String| s@) == self.list_where(self.names@.len() as int, p@),
    {
        let mut out: Vec<String> = Vec::new();
        let mut i: usize = 0;
        while i < self.names.len()
            invariant
                self.shape_ok(),
                sel@.len() == self.names@.len(),
                forall|m: int| 0 <= m < sel@.len() ==> #[trigger] sel@[m] == p@(m),
                i <= self.names@.len(),
                out@.map_values(|s: String| s@) == self.list_where(i as int, p@),
            decreases self.names@.len() - i,
        {
            if sel[i] {
                let ghost prev = out@;
                out.push(self.names[i].clone());
                assert(out@.map_values(|s: String| s@) =~= prev.map_values(|s: String| s@).push(
                    self.names@[i as int]@,
                ));
            }
            i = i + 1;
        }
        out
    }

    /// Whether every default feature is enabled.
    pub fn uses_default(&self) -> (r: bool)
        requires
            self.shape_ok(),
        ensures
            r == self.uses_default_spec(),
    {
        let mut k: usize = 0;
        while k < self.default_features.len()
            invariant
                self.shape_ok(),
                k <= self.default_features@.len(),
                forall|m: int| 0 <= m < k ==> #[trigger] self.is_on(self.default_features@[m]@),
            decreases self.default_features@.len() - k,
        {
            match self.get_index(&self.default_features[k]) {
                Some(i) => {
                    if !self.enabled[i] {
                        assert(!self.is_on(self.default_features@[k as int]@));
                        return false;
                    }
                },
                None => {
                    assert(!self.is_on(self.default_features@[k as int]@));
                    return false;
                },
            }
            k = k + 1;
        }
        true
    }

    /// Whether the named feature belongs to the default set.
    pub fn is_default_feature(&self, feature_name: &String) -> (r: bool)
        ensures
            r == self.defaults_view().contains(feature_name@),
    {
        let r = contains_name(&self.default_features, feature_name);
        proof {
            if r {
                let i = choose|i: int| 0 <= i < self.default_features@.len() && #[trigger] self.default_features@[i]@ == feature_name@;
                assert(self.defaults_view()[i] == feature_name@);
            }
        }
        r
    }

    /// The enabled features, without the default ones when the whole
    /// default set is enabled.
    pub fn get_enabled_features(&self) -> (r: Vec<String>)
        requires
            self.shape_ok(),
        ensures
            r@.map_values(|s: String| s@) == self.enabled_non_default_spec(),
    {
        let skip = self.uses_default();
        let mut sel: Vec<bool> = Vec::new();
        let mut i: usize = 0;
        let ghost p = |i: int| self.enabled@[i] && !(skip && self.defaults_view().contains(self.names@[i]@));
        while i < self.names.len()
            invariant
                self.shape_ok(),
                skip == self.uses_default_spec(),
                i <= self.names@.len(),
                sel@.len() == i,
                p == (|i: int| self.enabled@[i] && !(skip && self.defaults_view().contains(self.names@[i]@))),
                forall|m: int| 0 <= m < i ==> #[trigger] sel@[m] == p(m),
            decreases self.names@.len() - i,
        {
            let d = self.is_default_feature(&self.names[i]);
            sel.push(self.enabled[i] && !(skip && d));
            i = i + 1;
        }
        self.collect_where(Ghost(p), sel)
    }

    /// Enabled features that directly imply the named one; a caller shows
    /// the named feature as locked while any exist.
    pub fn get_active_dependent_features(&self, feature_name: &String) -> (r: Result<
        Vec<String>,
        FeatureError,
    >)
        requires
            self.shape_ok(),
        ensures
            r is Ok <==> self.has_feature(feature_name@),
            r is Err ==> r == Err::<Vec<String>, FeatureError>(FeatureError::UnknownFeature),
            r matches Ok(v) ==> v@.map_values(|s: String| s@) == self.active_dependents_spec(
                self.index_of(feature_name@),
            ),
    {
        let f = match self.get_index(feature_name) {
            Some(f) => f,
            None => {
                return Err(FeatureError::UnknownFeature);
            },
        };
        let mut sel: Vec<bool> = Vec::new();
        let mut i: usize = 0;
        while i < self.names.len()
            invariant
                self.shape_ok(),
                i <= self.names@.len(),
                sel@.len() == i,
                forall|m: int|
                    0 <= m < i ==> #[trigger] sel@[m] == (edge(self.adj(), m as usize, f)
                        && self.enabled@[m]),
            decreases self.names@.len() - i,
        {
            let hit = self.implies_contains(i, f);
            sel.push(hit && self.enabled[i]);
            i = i + 1;
        }
        Ok(self.collect_where(Ghost(|i: int| edge(self.adj(), i as usize, f) && self.enabled@[i]), sel))
    }

    /// Feature `i` is switched on at load time: it was requested by name, or
    /// it is a default feature and the default set was requested.
    pub open spec fn seeded(&self, i: int, requested: Seq<String>, has_default: bool) -> bool {
        (has_default && self.defaults_view().contains(self.names@[i]@)) || holds_name(
            requested,
            self.names@[i]@,
        )
    }

    /// Builds the feature graph of a dependency from registry data, then
    /// enables the requested features, and the default set if it was
    /// requested, with their implications.
    pub fn new(data: CrateData, enabled_features: Vec<String>, has_default: bool) -> (r: Crate)
        requires
            data.keys_unique(),
        ensures
            r.wf(),
            r.name@ == data.name@,
            r.version@ == data.version@,
            r.defaults_view() == data.defaults_spec(),
            forall|x: Seq<char>| #[trigger] holds_name(r.names@, x) == data.is_node_name(x),
            forall|i: int|
                0 <= i < r.names@.len() ==> (#[trigger] r.sub_features@[i])@.map_values(|t: String| t@)
                    == data.local_subs_of(r.names@[i]@),
            forall|j: usize|
                j < r.names@.len() ==> #[trigger] r.enabled@[j as int] == exists|i: usize|
                    i < r.names@.len() && #[trigger] r.seeded(i as int, enabled_features@, has_default)
                        && reaches(r.adj(), i, j),
    {
        let defaults = default_list(&data);
        let names = collect_names(&data, &defaults);
        let n = names.len();
        let mut implies: Vec<Vec<usize>> = Vec::new();
        let mut subs_all: Vec<Vec<String>> = Vec::new();
        let mut i: usize = 0;
        while i < n
            invariant
                data.keys_unique(),
                n == names@.len(),
                i <= n,
                implies@.len() == i,
                subs_all@.len() == i,
                forall|x: Seq<char>| #[trigger] holds_name(names@, x) == data.is_node_name(x),
                forall|m: int, k: int|
                    0 <= m < i && 0 <= k < implies@[m]@.len() ==> #[trigger] implies@[m]@[k] < n,
                forall|m: int| 0 <= m < i ==> #[trigger] implies@[m]@.len() == subs_all@[m]@.len(),
                forall|m: int, k: int|
                    0 <= m < i && 0 <= k < implies@[m]@.len() ==> names@[#[trigger] implies@[m]@[k] as int]@
                        == subs_all@[m]@[k]@,
                forall|m: int|
                    0 <= m < i ==> (#[trigger] subs_all@[m])@.map_values(|t: String| t@)
                        == data.local_subs_of(names@[m]@),
            decreases n - i,
        {
            let mut subs: Vec<String> = Vec::new();
            let is_def = is_default_key(&names[i]);
            match find_entry(&data, &names[i]) {
                Some(e) => {
                    if !is_def {
                        subs = local_names(&data.features[e].1);
                        proof {
                            let c = choose|c: int| 0 <= c < data.features@.len() && #[trigger] data.key(c) == names@[i as int]@;
                            if c != e {
                                if c < e {
                                    assert(data.key(c) != data.key(e as int));
                                } else {
                                    assert(data.key(e as int) != data.key(c));
                                }
                            }
                        }
                    }
                },
                None => {},
            }
            assert(subs@.map_values(|t: String| t@) =~= data.local_subs_of(names@[i as int]@));
            let mut idx: Vec<usize> = Vec::new();
            let mut k: usize = 0;
            while k < subs.len()
                invariant
                    n == names@.len(),
                    k <= subs@.len(),
                    idx@.len() == k,
                    forall|x: Seq<char>| #[trigger] holds_name(names@, x) == data.is_node_name(x),
                    subs@.map_values(|t: String| t@) == data.local_subs_of(names@[i as int]@),
                    i < n,
                    forall|q: int| 0 <= q < k ==> #[trigger] idx@[q] < n,
                    forall|q: int| 0 <= q < k ==> names@[#[trigger] idx@[q] as int]@ == subs@[q]@,
                decreases subs@.len() - k,
            {
                match position(&names, &subs[k]) {
                    Some(p) => {
                        idx.push(p);
                    },
                    None => {
                        proof {
                            let nm = names@[i as int]@;
                            let sv = subs@.map_values(|t: String| t@);
                            assert(sv.len() > 0);
                            let e = choose|e: int| 0 <= e < data.features@.len() && #[trigger] data.key(e) == nm;
                            let full = data.subs(e).map_values(|t: String| t@);
                            assert(sv == keep_local(full));
                            lemma_keep_local(full, k as int);
                            assert(sv[k as int] == subs@[k as int]@);
                            let m = choose|m: int| 0 <= m < full.len() && full[m] == subs@[k as int]@;
                            assert(data.subs(e)[m]@ == subs@[k as int]@);
                            assert(data.contributes(e, subs@[k as int]@));
                            assert(data.is_node_name(subs@[k as int]@));
                            assert(holds_name(names@, subs@[k as int]@));
                        }
                    },
                }
                k = k + 1;
            }
            implies.push(idx);
            subs_all.push(subs);
            i = i + 1;
        }
        let mut enabled: Vec<bool> = Vec::new();
        let mut q: usize = 0;
        while q < n
            invariant
                q <= n,
                enabled@.len() == q,
                forall|m: int| 0 <= m < q ==> !#[trigger] enabled@[m],
            decreases n - q,
        {
            enabled.push(false);
            q = q + 1;
        }
        let mut c = Crate {
            name: data.name,
            version: data.version,
            names,
            enabled,
            implies,
            sub_features: subs_all,
            default_features: defaults,
        };
        assert(closed(c.adj(), c.enabled@));
        assert(n == c.names@.len());
        assert(c.shape_ok());
        let ghost c0 = c;
        let ghost adj = c.adj();
        let mut i: usize = 0;
        while i < n
            invariant
                c.wf(),
                c.same_graph(&c0),
                c.adj() == adj,
                n == c.names@.len(),
                i <= n,
                forall|j: usize|
                    j < n ==> #[trigger] c.enabled@[j as int] == exists|s: usize|
                        s < i && #[trigger] c.seeded(s as int, enabled_features@, has_default) && reaches(adj, s, j),
            decreases n - i,
        {
            let d = crate::graph::in_defaults(&c.default_features, &c.names[i]);
            let asked = contains_name(&enabled_features, &c.names[i]);
            if (has_default && d) || asked {
                let ghost before = c.enabled@;
                let ghost cb = c;
                assert(cb.seeded(i as int, enabled_features@, has_default));
                c.enable_index(i);
                assert(forall|s: int| #[trigger] c.seeded(s, enabled_features@, has_default) == cb.seeded(s, enabled_features@, has_default));
                assert forall|j: usize| j < n implies #[trigger] c.enabled@[j as int] == exists|s: usize|
                    s < i + 1 && #[trigger] c.seeded(s as int, enabled_features@, has_default) && reaches(adj, s, j) by {
                    if reaches(adj, i, j) {
                        assert(c.seeded(i as int, enabled_features@, has_default));
                    }
                    if before[j as int] {
                        assert(cb.enabled@[j as int]);
                        let s = choose|s: usize| s < i && #[trigger] cb.seeded(s as int, enabled_features@, has_default) && reaches(adj, s, j);
                        assert(c.seeded(s as int, enabled_features@, has_default));
                    }
                    if exists|s: usize| s < i + 1 && #[trigger] c.seeded(s as int, enabled_features@, has_default) && reaches(adj, s, j) {
                        let s = choose|s: usize| s < i + 1 && #[trigger] c.seeded(s as int, enabled_features@, has_default) && reaches(adj, s, j);
                        if s < i {
                            assert(cb.seeded(s as int, enabled_features@, has_default));
                            assert(before[j as int]);
                        }
                    }
                }
            } else {
                assert forall|j: usize| j < n implies #[trigger] c.enabled@[j as int] == exists|s: usize|
                    s < i + 1 && #[trigger] c.seeded(s as int, enabled_features@, has_default) && reaches(adj, s, j) by {
                    if exists|s: usize| s < i + 1 && #[trigger] c.seeded(s as int, enabled_features@, has_default) && reaches(adj, s, j) {
                        let s = choose|s: usize| s < i + 1 && #[trigger] c.seeded(s as int, enabled_features@, has_default) && reaches(adj, s, j);
                        assert(s != i);
                    }
                }
            }
            i = i + 1;
        }
        c
    }

    pub fn get_name(&self) -> (r: String)
        ensures
            r@ == self.name@,
    {
        self.name.clone()
    }

    pub fn get_version(&self) -> (r: String)
        ensures
            r@ == self.version@,
    {
        self.version.clone()
    }

    /// Every feature with its enabled flag, in display order.
    pub fn get_features(&self) -> (r: Vec<(String, bool)>)
        requires
            self.shape_ok(),
        ensures
            r@.len() == self.names@.len(),
            forall|i: int|
                0 <= i < r@.len() ==> (#[trigger] r@[i]).0@ == self.names@[i]@ && r@[i].1
                    == self.enabled@[i],
    {
        let mut out: Vec<(String, bool)> = Vec::new();
        let mut i: usize = 0;
        while i < self.names.len()
            invariant
                self.shape_ok(),
                i <= self.names@.len(),
                out@.len() == i,
                forall|m: int|
                    0 <= m < i ==> (#[trigger] out@[m]).0@ == self.names@[m]@ && out@[m].1
                        == self.enabled@[m],
            decreases self.names@.len() - i,
        {
            out.push((self.names[i].clone(), self.enabled[i]));
            i = i + 1;
        }
        out
    }

    pub fn has_features(&self) -> (r: bool)
        ensures
            r == (self.names@.len() > 0),
    {
        self.names.len() > 0
    }

    pub fn get_features_count(&self) -> (r: usize)
        ensures
            r == self.names@.len(),
    {
        self.names.len()
    }

    /// The features that the named feature implies; empty for an unknown name.
    pub fn get_sub_features(&self, name: &String) -> (r: Vec<String>)
        requires
            self.shape_ok(),
        ensures
            self.has_feature(name@) ==> r@ == self.sub_features@[self.index_of(name@) as int]@,
            !self.has_feature(name@) ==> r@.len() == 0,
    {
        match self.get_index(name) {
            Some(i) => self.sub_features[i].clone(),
            None => Vec::new(),
        }
    }
}

} // verus!
