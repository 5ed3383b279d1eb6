use vstd::prelude::*;

verus! {

/// `a` lists `b` among the features it implies.
pub open spec fn edge(adj: Seq<Seq<usize>>, a: usize, b: usize) -> bool {
    a < adj.len() && adj[a as int].contains(b)
}

/// Every implication edge points at a node of the graph.
pub open spec fn edges_in_bounds(adj: Seq<Seq<usize>>) -> bool {
    forall|i: int, k: int|
        0 <= i < adj.len() && 0 <= k < adj[i].len() ==> #[trigger] adj[i][k] < adj.len()
}

/// Consecutive nodes of `p` are joined by implication edges.
pub open spec fn is_path(adj: Seq<Seq<usize>>, p: Seq<usize>) -> bool {
    forall|k: int| 0 <= k < p.len() - 1 ==> #[trigger] edge(adj, p[k], p[k + 1])
}

/// `j` is reachable from `i` by following zero or more implication edges.
pub open spec fn reaches(adj: Seq<Seq<usize>>, i: usize, j: usize) -> bool {
    exists|p: Seq<usize>| #[trigger] is_path(adj, p) && p.len() >= 1 && p[0] == i && p.last() == j
}

/// No enabled feature implies a disabled one.
pub open spec fn closed(adj: Seq<Seq<usize>>, en: Seq<bool>) -> bool {
    forall|a: usize, b: usize| #[trigger] edge(adj, a, b) && en[a as int] ==> en[b as int]
}

/// Enabled flags after enabling `f`: everything `f` reaches is switched on.
pub open spec fn after_enable(adj: Seq<Seq<usize>>, en: Seq<bool>, f: usize) -> Seq<bool> {
    Seq::new(en.len(), |j: int| en[j] || reaches(adj, f, j as usize))
}

/// Enabled flags after disabling `f`: everything that reaches `f` is switched off.
pub open spec fn after_disable(adj: Seq<Seq<usize>>, en: Seq<bool>, f: usize) -> Seq<bool> {
    Seq::new(en.len(), |j: int| en[j] && !reaches(adj, j as usize, f))
}

pub proof fn lemma_reaches_refl(adj: Seq<Seq<usize>>, i: usize)
    ensures
        reaches(adj, i, i),
{
    let p = seq![i];
    assert(is_path(adj, p));
}

pub proof fn lemma_reaches_step(adj: Seq<Seq<usize>>, i: usize, j: usize, k: usize)
    requires
        reaches(adj, i, j),
        edge(adj, j, k),
    ensures
        reaches(adj, i, k),
{
    let p = choose|p: Seq<usize>| #[trigger] is_path(adj, p) && p.len() >= 1 && p[0] == i && p.last() == j;
    let q = p.push(k);
    assert forall|m: int| 0 <= m < q.len() - 1 implies #[trigger] edge(adj, q[m], q[m + 1]) by {
        if m < p.len() - 1 {
            assert(edge(adj, p[m], p[m + 1]));
        }
    }
    assert(is_path(adj, q));
}

pub proof fn lemma_reaches_prepend(adj: Seq<Seq<usize>>, i: usize, j: usize, k: usize)
    requires
        edge(adj, i, j),
        reaches(adj, j, k),
    ensures
        reaches(adj, i, k),
{
    let p = choose|p: Seq<usize>| #[trigger] is_path(adj, p) && p.len() >= 1 && p[0] == j && p.last() == k;
    let q = seq![i] + p;
    assert forall|m: int| 0 <= m < q.len() - 1 implies #[trigger] edge(adj, q[m], q[m + 1]) by {
        if m > 0 {
            assert(q[m] == p[m - 1] && q[m + 1] == p[m]);
            assert(edge(adj, p[m - 1], p[(m - 1) + 1]));
        }
    }
    assert(is_path(adj, q));
}

/// A closed set that holds `i` holds everything reachable from `i`.
pub proof fn lemma_closed_reaches(adj: Seq<Seq<usize>>, en: Seq<bool>, i: usize, j: usize)
    requires
        closed(adj, en),
        en[i as int],
        reaches(adj, i, j),
    ensures
        en[j as int],
{
    let p = choose|p: Seq<usize>| #[trigger] is_path(adj, p) && p.len() >= 1 && p[0] == i && p.last() == j;
    lemma_closed_path(adj, en, p, p.len() - 1);
}

proof fn lemma_closed_path(adj: Seq<Seq<usize>>, en: Seq<bool>, p: Seq<usize>, m: int)
    requires
        closed(adj, en),
        is_path(adj, p),
        0 <= m < p.len(),
        en[p[0] as int],
    ensures
        en[p[m] as int],
    decreases m,
{
    if m > 0 {
        lemma_closed_path(adj, en, p, m - 1);
        assert(edge(adj, p[m - 1], p[(m - 1) + 1]));
    }
}

/// Number of entries of `s` equal to `v`.
pub open spec fn count_eq(s: Seq<bool>, v: bool) -> nat
    decreases s.len(),
{
    if s.len() == 0 {
        0
    } else {
        count_eq(s.drop_last(), v) + if s.last() == v { 1nat } else { 0nat }
    }
}

pub proof fn lemma_count_eq_set(s: Seq<bool>, i: int, w: bool, v: bool)
    requires
        0 <= i < s.len(),
    ensures
        count_eq(s.update(i, w), v) + (if s[i] == v { 1int } else { 0int }) == count_eq(s, v) + (
        if w == v { 1int } else { 0int }),
    decreases s.len(),
{
    let t = s.update(i, w);
    if i == s.len() - 1 {
        assert(t.drop_last() =~= s.drop_last());
    } else {
        assert(t.drop_last() =~= s.drop_last().update(i, w));
        lemma_count_eq_set(s.drop_last(), i, w, v);
    }
}

/// Strict lexicographic order on character sequences, as `String`'s own order.
pub open spec fn lex_lt(a: Seq<char>, b: Seq<char>) -> bool
    decreases a.len(),
{
    if a.len() == 0 {
        b.len() > 0
    } else if b.len() == 0 {
        false
    } else if a[0] != b[0] {
        (a[0] as int) < (b[0] as int)
    } else {
        lex_lt(a.drop_first(), b.drop_first())
    }
}

pub proof fn lemma_lex_irrefl(a: Seq<char>)
    ensures
        !lex_lt(a, a),
    decreases a.len(),
{
    if a.len() > 0 {
        lemma_lex_irrefl(a.drop_first());
    }
}

pub proof fn lemma_lex_trans(a: Seq<char>, b: Seq<char>, c: Seq<char>)
    requires
        lex_lt(a, b),
        lex_lt(b, c),
    ensures
        lex_lt(a, c),
    decreases a.len(),
{
    if a.len() > 0 && b.len() > 0 && c.len() > 0 && a[0] == b[0] && b[0] == c[0] {
        lemma_lex_trans(a.drop_first(), b.drop_first(), c.drop_first());
    }
}

pub proof fn lemma_lex_total(a: Seq<char>, b: Seq<char>)
    requires
        a != b,
    ensures
        lex_lt(a, b) || lex_lt(b, a),
    decreases a.len(),
{
    if a.len() > 0 && b.len() > 0 && a[0] == b[0] {
        if a.drop_first() == b.drop_first() {
            assert(a =~= seq![a[0]] + a.drop_first());
            assert(b =~= seq![b[0]] + b.drop_first());
        }
        lemma_lex_total(a.drop_first(), b.drop_first());
    } else if a.len() > 0 && b.len() > 0 {
        assert((a[0] as int) != (b[0] as int));
    } else if a.len() == 0 && b.len() == 0 {
        assert(a =~= b);
    }
}

/// Display order: features of the default set first, then by name.
pub open spec fn key_lt(defaults: Seq<Seq<char>>, a: Seq<char>, b: Seq<char>) -> bool {
    if defaults.contains(a) != defaults.contains(b) {
        defaults.contains(a)
    } else {
        lex_lt(a, b)
    }
}

pub proof fn lemma_key_trans(d: Seq<Seq<char>>, a: Seq<char>, b: Seq<char>, c: Seq<char>)
    requires
        key_lt(d, a, b),
        key_lt(d, b, c),
    ensures
        key_lt(d, a, c),
{
    if d.contains(a) == d.contains(b) && d.contains(b) == d.contains(c) {
        lemma_lex_trans(a, b, c);
    }
}

pub proof fn lemma_key_total(d: Seq<Seq<char>>, a: Seq<char>, b: Seq<char>)
    requires
        a != b,
    ensures
        key_lt(d, a, b) || key_lt(d, b, a),
{
    lemma_lex_total(a, b);
}

pub proof fn lemma_key_irrefl(d: Seq<Seq<char>>, a: Seq<char>)
    ensures
        !key_lt(d, a, a),
{
    lemma_lex_irrefl(a);
}

/// Compares two names character by character.
pub fn lex_less(a: &String, b: &String) -> (r: bool)
    ensures
        r == lex_lt(a@, b@),
{
    let sa = a.as_str();
    let sb = b.as_str();
    let la = sa.unicode_len();
    let lb = sb.unicode_len();
    assert(a@.skip(0) =~= a@);
    assert(b@.skip(0) =~= b@);
    let mut k: usize = 0;
    while k < la && k < lb
        invariant
            la == a@.len(),
            lb == b@.len(),
            sa@ == a@,
            sb@ == b@,
            k <= la,
            k <= lb,
            lex_lt(a@, b@) == lex_lt(a@.skip(k as int), b@.skip(k as int)),
        decreases la - k,
    {
        let ca = sa.get_char(k);
        let cb = sb.get_char(k);
        if ca != cb {
            return (ca as u32) < (cb as u32);
        }
        assert(a@.skip(k as int).drop_first() =~= a@.skip(k + 1));
        assert(b@.skip(k as int).drop_first() =~= b@.skip(k + 1));
        k = k + 1;
    }
    k < lb
}

/// Whether `s` holds the character `c`.
pub fn has_char(s: &String, c: char) -> (r: bool)
    ensures
        r == s@.contains(c),
{
    let t = s.as_str();
    let n = t.unicode_len();
    let mut k: usize = 0;
    while k < n
        invariant
            n == s@.len(),
            t@ == s@,
            k <= n,
            forall|m: int| 0 <= m < k ==> s@[m] != c,
        decreases n - k,
    {
        if t.get_char(k) == c {
            return true;
        }
        k = k + 1;
    }
    false
}

/// Whether `s` spells exactly the characters of `word`.
pub fn spells(s: &String, word: &str) -> (r: bool)
    ensures
        r == (s@ == word@),
{
    let t = s.as_str();
    let n = t.unicode_len();
    if n != word.unicode_len() {
        return false;
    }
    let mut k: usize = 0;
    while k < n
        invariant
            n == s@.len(),
            n == word@.len(),
            t@ == s@,
            k <= n,
            forall|m: int| 0 <= m < k ==> s@[m] == word@[m],
        decreases n - k,
    {
        if t.get_char(k) != word.get_char(k) {
            return false;
        }
        k = k + 1;
    }
    assert(s@ =~= word@);
    true
}

/// Whether `v` holds a string equal to `s`.
pub fn contains_name(v: &Vec<String>, s: &String) -> (r: bool)
    ensures
        r == exists|i: int| 0 <= i < v@.len() && #[trigger] v@[i]@ == s@,
{
    let mut k: usize = 0;
    while k < v.len()
        invariant
            k <= v@.len(),
            forall|m: int| 0 <= m < k ==> #[trigger] v@[m]@ != s@,
        decreases v.len() - k,
    {
        if v[k] == *s {
            return true;
        }
        k = k + 1;
    }
    false
}

/// Strictly increasing in display order, hence free of repeats.
pub open spec fn sorted_names(v: Seq<String>, d: Seq<Seq<char>>) -> bool {
    forall|i: int, j: int| 0 <= i < j < v.len() ==> key_lt(d, #[trigger] v[i]@, #[trigger] v[j]@)
}

/// Some entry of `v` reads `x`.
pub open spec fn holds_name(v: Seq<String>, x: Seq<char>) -> bool {
    exists|i: int| 0 <= i < v.len() && #[trigger] v[i]@ == x
}

/// Whether `s` names one of the features in `defaults`.
pub fn in_defaults(defaults: &Vec<String>, s: &String) -> (r: bool)
    ensures
        r == defaults@.map_values(|t: String| t@).contains(s@),
{
    let r = contains_name(defaults, s);
    proof {
        let dv = defaults@.map_values(|t: String| t@);
        if r {
            let i = choose|i: int| 0 <= i < defaults@.len() && #[trigger] defaults@[i]@ == s@;
            assert(dv[i] == s@);
        }
        if dv.contains(s@) {
            let i = choose|i: int| 0 <= i < dv.len() && dv[i] == s@;
            assert(defaults@[i]@ == s@);
        }
    }
    r
}

/// Display-order comparison of two names.
pub fn key_less(defaults: &Vec<String>, a: &String, b: &String) -> (r: bool)
    ensures
        r == key_lt(defaults@.map_values(|t: String| t@), a@, b@),
{
    let da = in_defaults(defaults, a);
    let db = in_defaults(defaults, b);
    if da != db {
        da
    } else {
        lex_less(a, b)
    }
}

/// Puts `n` into its place in the display order, unless it is there already.
pub fn insert_name(names: &mut Vec<String>, n: String, defaults: &Vec<String>)
    requires
        sorted_names(old(names)@, defaults@.map_values(|t: String| t@)),
    ensures
        sorted_names(final(names)@, defaults@.map_values(|t: String| t@)),
        forall|x: Seq<char>| #[trigger] holds_name(final(names)@, x) == (holds_name(old(names)@, x) || x == n@),
{
    let ghost d = defaults@.map_values(|t: String| t@);
    let mut p: usize = 0;
    while p < names.len() && key_less(defaults, &names[p], &n)
        invariant
            p <= names@.len(),
            d == defaults@.map_values(|t: String| t@),
            sorted_names(names@, d),
            forall|m: int| 0 <= m < p ==> key_lt(d, #[trigger] names@[m]@, n@),
        decreases names@.len() - p,
    {
        p = p + 1;
    }
    if p < names.len() && names[p] == n {
        return;
    }
    let ghost old_names = names@;
    proof {
        if p < old_names.len() {
            lemma_key_total(d, old_names[p as int]@, n@);
        }
    }
    names.insert(p, n);
    let ghost nw = names@;
    assert(nw.len() == old_names.len() + 1);
    assert(forall|i: int| 0 <= i < p ==> nw[i] == old_names[i]);
    assert(forall|i: int| p < i < nw.len() ==> nw[i] == old_names[i - 1]);
    assert(nw[p as int] == n);
    assert forall|i: int, j: int| 0 <= i < j < nw.len() implies key_lt(d, #[trigger] nw[i]@, #[trigger] nw[j]@) by {
        if j < p {
        } else if j == p {
        } else if i < p {
            assert(key_lt(d, old_names[i]@, old_names[j - 1]@));
        } else if i == p {
            if j - 1 > p {
                assert(key_lt(d, old_names[p as int]@, old_names[j - 1]@));
                lemma_key_trans(d, n@, old_names[p as int]@, old_names[j - 1]@);
            }
        } else {
            assert(key_lt(d, old_names[i - 1]@, old_names[j - 1]@));
        }
    }
    assert forall|x: Seq<char>| #[trigger] holds_name(nw, x) == (holds_name(old_names, x) || x == n@) by {
        if holds_name(nw, x) {
            let i = choose|i: int| 0 <= i < nw.len() && #[trigger] nw[i]@ == x;
            if i < p {
                assert(old_names[i]@ == x);
            } else if i > p {
                assert(old_names[i - 1]@ == x);
            }
        }
        if holds_name(old_names, x) {
            let i = choose|i: int| 0 <= i < old_names.len() && #[trigger] old_names[i]@ == x;
            if i < p {
                assert(nw[i]@ == x);
            } else {
                assert(nw[i + 1]@ == x);
            }
        }
        if x == n@ {
            assert(nw[p as int]@ == x);
        }
    }
}

/// The index of the first entry of `v` that reads `s`.
pub fn position(v: &Vec<String>, s: &String) -> (r: Option<usize>)
    ensures
        match r {
            Some(i) => i < v@.len() && v@[i as int]@ == s@,
            None => !holds_name(v@, s@),
        },
{
    let mut k: usize = 0;
    while k < v.len()
        invariant
            k <= v@.len(),
            forall|m: int| 0 <= m < k ==> #[trigger] v@[m]@ != s@,
        decreases v.len() - k,
    {
        if v[k] == *s {
            return Some(k);
        }
        k = k + 1;
    }
    None
}

} // verus!
