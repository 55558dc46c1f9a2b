//! Mathematical model of the grammar analysis: ghost symbols, association
//! sequences with unique keys, and the FIRST fixed-point step function.

use vstd::prelude::*;

verus! {

/// Model of a grammar symbol: the tag plus the name (nonterminal) or the
/// lexeme (terminal), as a sequence of characters.
pub ghost enum GSym {
    Nonterminal(Seq<char>),
    Terminal(Seq<char>),
}

/// The reserved empty lexeme that marks an epsilon production inside a
/// FIRST set.
pub open spec fn epsilon() -> Seq<char> {
    Seq::empty()
}

/// The lexeme of the reserved end-of-input marker.
pub open spec fn end_marker() -> Seq<char> {
    seq!['$']
}

/// Value stored under the first entry of `m` whose key is `k`, if any.
pub open spec fn assoc_get<K, V>(m: Seq<(K, V)>, k: K) -> Option<V>
    decreases m.len(),
{
    if m.len() == 0 {
        None
    } else if m[0].0 == k {
        Some(m[0].1)
    } else {
        assoc_get(m.drop_first(), k)
    }
}

/// No two entries of `m` share a key.
pub open spec fn keys_unique<K, V>(m: Seq<(K, V)>) -> bool {
    forall|i: int, j: int| 0 <= i < j < m.len() ==> m[i].0 != m[j].0
}

/// If position `j` holds the first occurrence of key `k`, then `assoc_get`
/// answers with the value stored there.
pub proof fn lemma_assoc_get_at<K, V>(m: Seq<(K, V)>, k: K, j: int)
    requires
        0 <= j < m.len(),
        m[j].0 == k,
        forall|i: int| 0 <= i < j ==> m[i].0 != k,
    ensures
        assoc_get(m, k) == Some(m[j].1),
    decreases j,
{
    if j > 0 {
        lemma_assoc_get_at(m.drop_first(), k, j - 1);
    }
}

/// A key that occurs under no entry is not found.
pub proof fn lemma_assoc_get_none<K, V>(m: Seq<(K, V)>, k: K)
    requires
        forall|i: int| 0 <= i < m.len() ==> m[i].0 != k,
    ensures
        assoc_get(m, k) is None,
    decreases m.len(),
{
    if m.len() > 0 {
        lemma_assoc_get_none(m.drop_first(), k);
    }
}

/// Appends alternative `v` to the entry of key `k`, creating the entry at the
/// end if the key is absent.
pub open spec fn assoc_append<K, V>(m: Seq<(K, Seq<V>)>, k: K, v: V) -> Seq<(K, Seq<V>)>
    decreases m.len(),
{
    if m.len() == 0 {
        seq![(k, seq![v])]
    } else if m[0].0 == k {
        seq![(m[0].0, m[0].1.push(v))] + m.drop_first()
    } else {
        seq![m[0]] + assoc_append(m.drop_first(), k, v)
    }
}

/// When `j` holds the first occurrence of `k`, appending updates exactly
/// that entry.
pub proof fn lemma_assoc_append_at<K, V>(m: Seq<(K, Seq<V>)>, k: K, v: V, j: int)
    requires
        0 <= j < m.len(),
        m[j].0 == k,
        forall|i: int| 0 <= i < j ==> m[i].0 != k,
    ensures
        assoc_append(m, k, v) =~= m.update(j, (m[j].0, m[j].1.push(v))),
    decreases j,
{
    if j > 0 {
        lemma_assoc_append_at(m.drop_first(), k, v, j - 1);
        assert(assoc_append(m, k, v) =~= seq![m[0]] + m.drop_first().update(
            j - 1,
            (m[j].0, m[j].1.push(v)),
        ));
    }
}

/// When `k` is absent, appending creates a new entry at the end.
pub proof fn lemma_assoc_append_new<K, V>(m: Seq<(K, Seq<V>)>, k: K, v: V)
    requires
        forall|i: int| 0 <= i < m.len() ==> m[i].0 != k,
    ensures
        assoc_append(m, k, v) =~= m.push((k, seq![v])),
    decreases m.len(),
{
    if m.len() > 0 {
        lemma_assoc_append_new(m.drop_first(), k, v);
        assert(assoc_append(m, k, v) =~= seq![m[0]] + m.drop_first().push((k, seq![v])));
    }
}

/// Total number of stored elements over a family of element lists.
pub open spec fn total_size(m: Seq<(Seq<char>, Seq<Seq<char>>)>) -> nat
    decreases m.len(),
{
    if m.len() == 0 {
        0
    } else {
        total_size(m.drop_last()) + m.last().1.len()
    }
}

/// `n` lists of at most `c` elements each hold at most `size_cap(n, c)`
/// elements; the product is written as a recursion so the bound below
/// follows by plain induction.
pub open spec fn size_cap(n: nat, c: nat) -> nat
    decreases n,
{
    if n == 0 {
        0
    } else {
        size_cap((n - 1) as nat, c) + c
    }
}

pub proof fn lemma_total_size_le_cap(m: Seq<(Seq<char>, Seq<Seq<char>>)>, c: nat)
    requires
        forall|i: int| 0 <= i < m.len() ==> #[trigger] m[i].1.len() <= c,
    ensures
        total_size(m) <= size_cap(m.len(), c),
    decreases m.len(),
{
    if m.len() > 0 {
        lemma_total_size_le_cap(m.drop_last(), c);
        assert(m.last().1.len() <= c);
    }
}

/// Growing every list pointwise can only grow the total.
pub proof fn lemma_total_size_pointwise_le(
    a: Seq<(Seq<char>, Seq<Seq<char>>)>,
    b: Seq<(Seq<char>, Seq<Seq<char>>)>,
)
    requires
        a.len() == b.len(),
        forall|i: int| 0 <= i < a.len() ==> #[trigger] a[i].1.len() <= #[trigger] b[i].1.len(),
    ensures
        total_size(a) <= total_size(b),
    decreases a.len(),
{
    if a.len() > 0 {
        lemma_total_size_pointwise_le(a.drop_last(), b.drop_last());
    }
}

/// Growing one list strictly, and none shrinking, grows the total strictly.
pub proof fn lemma_total_size_pointwise_lt(
    a: Seq<(Seq<char>, Seq<Seq<char>>)>,
    b: Seq<(Seq<char>, Seq<Seq<char>>)>,
    w: int,
)
    requires
        a.len() == b.len(),
        forall|i: int| 0 <= i < a.len() ==> #[trigger] a[i].1.len() <= #[trigger] b[i].1.len(),
        0 <= w < a.len(),
        a[w].1.len() < b[w].1.len(),
    ensures
        total_size(a) < total_size(b),
    decreases a.len(),
{
    if w == a.len() - 1 {
        lemma_total_size_pointwise_le(a.drop_last(), b.drop_last());
    } else {
        lemma_total_size_pointwise_lt(a.drop_last(), b.drop_last(), w);
    }
}

/// The per-key state of a fixed-point computation, with each element list
/// read as the set it stands for.
pub open spec fn sets_view(m: Seq<(Seq<char>, Seq<Seq<char>>)>) -> Seq<(Seq<char>, Set<Seq<char>>)> {
    Seq::new(m.len(), |i: int| (m[i].0, m[i].1.to_set()))
}

/// FIRST contribution of a single production under the current sets `f`:
/// the epsilon marker for an empty production, the leading terminal, or the
/// current FIRST set of the leading nonterminal (empty if none is recorded).
/// Only the leading symbol is inspected, as the engine documents.
pub open spec fn prod_first(p: Seq<GSym>, f: Seq<(Seq<char>, Set<Seq<char>>)>) -> Set<Seq<char>> {
    if p.len() == 0 {
        Set::empty().insert(epsilon())
    } else {
        match p[0] {
            GSym::Terminal(t) => Set::empty().insert(t),
            GSym::Nonterminal(n) => match assoc_get(f, n) {
                Some(s) => s,
                None => Set::empty(),
            },
        }
    }
}

/// FIRST contribution of an ordered list of alternative productions.
pub open spec fn prods_first(ps: Seq<Seq<GSym>>, f: Seq<(Seq<char>, Set<Seq<char>>)>) -> Set<
    Seq<char>,
>
    decreases ps.len(),
{
    if ps.len() == 0 {
        Set::empty()
    } else {
        prods_first(ps.drop_last(), f).union(prod_first(ps.last(), f))
    }
}

/// One full pass of the FIRST fixed-point iteration: every nonterminal's set
/// grows by the contribution of each of its productions, with nonterminal
/// lookups answered from the previous pass `f`.
pub open spec fn first_step(
    g: Seq<(Seq<char>, Seq<Seq<GSym>>)>,
    f: Seq<(Seq<char>, Set<Seq<char>>)>,
) -> Seq<(Seq<char>, Set<Seq<char>>)> {
    Seq::new(g.len(), |i: int| (g[i].0, f[i].1.union(prods_first(g[i].1, f))))
}

/// The start of the iteration: one empty set per production head.
pub open spec fn first_init(g: Seq<(Seq<char>, Seq<Seq<GSym>>)>) -> Seq<
    (Seq<char>, Set<Seq<char>>),
> {
    Seq::new(g.len(), |i: int| (g[i].0, Set::<Seq<char>>::empty()))
}

/// The state of the FIRST computation after `n` passes.
pub open spec fn first_iter(g: Seq<(Seq<char>, Seq<Seq<GSym>>)>, n: nat) -> Seq<
    (Seq<char>, Set<Seq<char>>),
>
    decreases n,
{
    if n == 0 {
        first_init(g)
    } else {
        first_step(g, first_iter(g, (n - 1) as nat))
    }
}

/// The FIRST computation is finished: the stored duplicate-free lists carry
/// one set per production head, the family is a state the iteration reaches,
/// and one more pass would change nothing.
pub open spec fn first_computed(
    g: Seq<(Seq<char>, Seq<Seq<GSym>>)>,
    fm: Seq<(Seq<char>, Seq<Seq<char>>)>,
) -> bool {
    &&& fm.len() == g.len()
    &&& forall|i: int| 0 <= i < g.len() ==> #[trigger] fm[i].0 == g[i].0
    &&& forall|i: int| 0 <= i < fm.len() ==> (#[trigger] fm[i].1).no_duplicates()
    &&& exists|n: nat| sets_view(fm) == first_iter(g, n)
    &&& first_step(g, sets_view(fm)) == sets_view(fm)
}

/// `u` covers everything a FIRST set can ever receive: the epsilon marker
/// and every terminal that leads a production.
pub open spec fn first_universe_ok(g: Seq<(Seq<char>, Seq<Seq<GSym>>)>, u: Set<Seq<char>>) -> bool {
    &&& u.contains(epsilon())
    &&& forall|i: int, j: int|
        0 <= i < g.len() && 0 <= j < g[i].1.len() && g[i].1[j].len() > 0 ==> (
        #[trigger] g[i].1[j][0] matches GSym::Terminal(t) ==> u.contains(t))
}

/// A found value is the value of some entry.
pub proof fn lemma_assoc_get_some_index<K, V>(m: Seq<(K, V)>, k: K)
    requires
        assoc_get(m, k) is Some,
    ensures
        exists|i: int| 0 <= i < m.len() && #[trigger] m[i] == (k, assoc_get(m, k)->Some_0),
    decreases m.len(),
{
    if m.len() > 0 {
        if m[0].0 == k {
            assert(m[0] == (k, assoc_get(m, k)->Some_0));
        } else {
            lemma_assoc_get_some_index(m.drop_first(), k);
            let i = choose|i: int|
                0 <= i < m.drop_first().len() && #[trigger] m.drop_first()[i] == (
                    k,
                    assoc_get(m.drop_first(), k)->Some_0,
                );
            assert(m[i + 1] == (k, assoc_get(m, k)->Some_0));
        }
    }
}

/// Under a universe that covers the grammar and the current sets, every
/// production contribution stays inside the universe.
pub proof fn lemma_prods_first_bound(
    ps: Seq<Seq<GSym>>,
    f: Seq<(Seq<char>, Set<Seq<char>>)>,
    u: Set<Seq<char>>,
)
    requires
        u.contains(epsilon()),
        forall|j: int|
            0 <= j < ps.len() && ps[j].len() > 0 ==> (#[trigger] ps[j][0] matches GSym::Terminal(t)
                ==> u.contains(t)),
        forall|i: int| 0 <= i < f.len() ==> (#[trigger] f[i].1).subset_of(u),
    ensures
        prods_first(ps, f).subset_of(u),
    decreases ps.len(),
{
    if ps.len() > 0 {
        assert forall|j: int| 0 <= j < ps.drop_last().len() implies ps.drop_last()[j] == ps[j] by {}
        lemma_prods_first_bound(ps.drop_last(), f, u);
        let p = ps.last();
        assert(ps[ps.len() - 1] == p);
        if p.len() > 0 {
            match p[0] {
                GSym::Terminal(t) => {
                    assert(ps[ps.len() - 1][0] == p[0]);
                    assert(u.contains(t));
                    assert(prod_first(p, f).subset_of(u));
                },
                GSym::Nonterminal(n) => {
                    if assoc_get(f, n) is Some {
                        lemma_assoc_get_some_index(f, n);
                        let i = choose|i: int|
                            0 <= i < f.len() && #[trigger] f[i] == (n, assoc_get(f, n)->Some_0);
                        assert(f[i].1.subset_of(u));
                        assert(prod_first(p, f) == f[i].1);
                    }
                },
            }
        } else {
            assert(prod_first(p, f) =~= Set::empty().insert(epsilon()));
            assert(prod_first(p, f).subset_of(u));
        }
        assert(prods_first(ps, f) == prods_first(ps.drop_last(), f).union(prod_first(p, f)));
    }
}

/// The keys of an association sequence, in storage order.
pub open spec fn keys_of<V>(m: Seq<(Seq<char>, V)>) -> Seq<Seq<char>> {
    Seq::new(m.len(), |i: int| m[i].0)
}

/// Grows the set stored under key `x`; other entries, and the key order,
/// are untouched. When the key is absent the state is unchanged.
pub open spec fn upd_set(
    st: Seq<(Seq<char>, Set<Seq<char>>)>,
    x: Seq<char>,
    add: Set<Seq<char>>,
) -> Seq<(Seq<char>, Set<Seq<char>>)> {
    Seq::new(
        st.len(),
        |i: int|
            if st[i].0 == x {
                (st[i].0, st[i].1.union(add))
            } else {
                st[i]
            },
    )
}

/// What a successor symbol feeds into the FOLLOW set of the nonterminal
/// standing before it: the terminal itself, or the recorded FIRST set of
/// the nonterminal with the epsilon marker removed (empty if none is
/// recorded).
pub open spec fn succ_terminals(f1: Seq<(Seq<char>, Seq<Seq<char>>)>, s: GSym) -> Set<Seq<char>> {
    match s {
        GSym::Terminal(t) => Set::empty().insert(t),
        GSym::Nonterminal(b) => match assoc_get(f1, b) {
            Some(fs) => fs.to_set().remove(epsilon()),
            None => Set::empty(),
        },
    }
}

/// Whether the recorded FIRST set of `s` holds the epsilon marker.
pub open spec fn nullable_sym(f1: Seq<(Seq<char>, Seq<Seq<char>>)>, s: GSym) -> bool {
    match s {
        GSym::Terminal(_) => false,
        GSym::Nonterminal(b) => match assoc_get(f1, b) {
            Some(fs) => fs.to_set().contains(epsilon()),
            None => false,
        },
    }
}

/// Forward FOLLOW rule applied at the first `n` adjacent pairs of `p`: at
/// pair `i` (positions `i-1` and `i`), a nonterminal at `i-1` receives what
/// the symbol at `i` can begin with.
pub open spec fn fwd_upto(
    f1: Seq<(Seq<char>, Seq<Seq<char>>)>,
    p: Seq<GSym>,
    st: Seq<(Seq<char>, Set<Seq<char>>)>,
    n: int,
) -> Seq<(Seq<char>, Set<Seq<char>>)>
    decreases n,
{
    if n < 1 {
        st
    } else {
        let prev = fwd_upto(f1, p, st, n - 1);
        match p[n - 1] {
            GSym::Nonterminal(x) => upd_set(prev, x, succ_terminals(f1, p[n])),
            GSym::Terminal(_) => prev,
        }
    }
}

/// Forward rule over the whole production.
pub open spec fn fwd_all(
    f1: Seq<(Seq<char>, Seq<Seq<char>>)>,
    p: Seq<GSym>,
    st: Seq<(Seq<char>, Set<Seq<char>>)>,
) -> Seq<(Seq<char>, Set<Seq<char>>)> {
    if p.len() == 0 {
        st
    } else {
        fwd_upto(f1, p, st, p.len() - 1)
    }
}

/// Trailing FOLLOW rule scanning leftward from position `j`: each
/// nonterminal passed receives `hset`, the production head's FOLLOW set
/// from the previous pass. The scan stops at a terminal, and moves past a
/// symbol only while that symbol's FIRST set holds the epsilon marker.
pub open spec fn trail_from(
    f1: Seq<(Seq<char>, Seq<Seq<char>>)>,
    hset: Set<Seq<char>>,
    p: Seq<GSym>,
    st: Seq<(Seq<char>, Set<Seq<char>>)>,
    j: int,
) -> Seq<(Seq<char>, Set<Seq<char>>)>
    decreases j + 1,
{
    if j < 0 {
        st
    } else {
        match p[j] {
            GSym::Terminal(_) => st,
            GSym::Nonterminal(x) => {
                let st2 = upd_set(st, x, hset);
                if nullable_sym(f1, p[j]) {
                    trail_from(f1, hset, p, st2, j - 1)
                } else {
                    st2
                }
            },
        }
    }
}

/// The set stored for head `h` in the previous pass, empty if none.
pub open spec fn head_set(fp: Seq<(Seq<char>, Set<Seq<char>>)>, h: Seq<char>) -> Set<Seq<char>> {
    match assoc_get(fp, h) {
        Some(s) => s,
        None => Set::empty(),
    }
}

/// Effect of one production on the evolving state: the forward pass over
/// all adjacent pairs, then the trailing scan from the last symbol.
pub open spec fn prod_follow_step(
    f1: Seq<(Seq<char>, Seq<Seq<char>>)>,
    fp: Seq<(Seq<char>, Set<Seq<char>>)>,
    head: Seq<char>,
    p: Seq<GSym>,
    st: Seq<(Seq<char>, Set<Seq<char>>)>,
) -> Seq<(Seq<char>, Set<Seq<char>>)> {
    trail_from(f1, head_set(fp, head), p, fwd_all(f1, p, st), p.len() - 1)
}

/// Effect of a head's alternatives, in registration order.
pub open spec fn prods_follow_step(
    f1: Seq<(Seq<char>, Seq<Seq<char>>)>,
    fp: Seq<(Seq<char>, Set<Seq<char>>)>,
    head: Seq<char>,
    ps: Seq<Seq<GSym>>,
    st: Seq<(Seq<char>, Set<Seq<char>>)>,
) -> Seq<(Seq<char>, Set<Seq<char>>)>
    decreases ps.len(),
{
    if ps.len() == 0 {
        st
    } else {
        prod_follow_step(f1, fp, head, ps.last(), prods_follow_step(f1, fp, head, ps.drop_last(), st))
    }
}

/// Effect of the first `n` grammar entries.
pub open spec fn rules_follow_step(
    g: Seq<(Seq<char>, Seq<Seq<GSym>>)>,
    f1: Seq<(Seq<char>, Seq<Seq<char>>)>,
    fp: Seq<(Seq<char>, Set<Seq<char>>)>,
    st: Seq<(Seq<char>, Set<Seq<char>>)>,
    n: int,
) -> Seq<(Seq<char>, Set<Seq<char>>)>
    decreases n,
{
    if n <= 0 {
        st
    } else {
        prods_follow_step(f1, fp, g[n - 1].0, g[n - 1].1, rules_follow_step(g, f1, fp, st, n - 1))
    }
}

/// One full pass of the FOLLOW fixed-point iteration: the state evolves in
/// place while head FOLLOW sets are answered from the pass-start snapshot.
pub open spec fn follow_step(
    g: Seq<(Seq<char>, Seq<Seq<GSym>>)>,
    f1: Seq<(Seq<char>, Seq<Seq<char>>)>,
    fp: Seq<(Seq<char>, Set<Seq<char>>)>,
) -> Seq<(Seq<char>, Set<Seq<char>>)> {
    rules_follow_step(g, f1, fp, fp, g.len() as int)
}

/// Appends a key unless it is already known.
pub open spec fn add_key(ks: Seq<Seq<char>>, x: Seq<char>) -> Seq<Seq<char>> {
    if ks.contains(x) {
        ks
    } else {
        ks.push(x)
    }
}

/// Keys the forward rule touches in the first `n` pairs of `p`.
pub open spec fn fwd_keys_upto(p: Seq<GSym>, ks: Seq<Seq<char>>, n: int) -> Seq<Seq<char>>
    decreases n,
{
    if n < 1 {
        ks
    } else {
        let k2 = fwd_keys_upto(p, ks, n - 1);
        match p[n - 1] {
            GSym::Nonterminal(x) => add_key(k2, x),
            GSym::Terminal(_) => k2,
        }
    }
}

pub open spec fn fwd_keys(p: Seq<GSym>, ks: Seq<Seq<char>>) -> Seq<Seq<char>> {
    if p.len() == 0 {
        ks
    } else {
        fwd_keys_upto(p, ks, p.len() - 1)
    }
}

/// Keys the trailing scan touches, moving left from position `j`.
pub open spec fn trail_keys_from(
    f1: Seq<(Seq<char>, Seq<Seq<char>>)>,
    p: Seq<GSym>,
    ks: Seq<Seq<char>>,
    j: int,
) -> Seq<Seq<char>>
    decreases j + 1,
{
    if j < 0 {
        ks
    } else {
        match p[j] {
            GSym::Terminal(_) => ks,
            GSym::Nonterminal(x) => {
                let k2 = add_key(ks, x);
                if nullable_sym(f1, p[j]) {
                    trail_keys_from(f1, p, k2, j - 1)
                } else {
                    k2
                }
            },
        }
    }
}

pub open spec fn prod_keys(
    f1: Seq<(Seq<char>, Seq<Seq<char>>)>,
    p: Seq<GSym>,
    ks: Seq<Seq<char>>,
) -> Seq<Seq<char>> {
    trail_keys_from(f1, p, fwd_keys(p, ks), p.len() - 1)
}

pub open spec fn prods_keys(
    f1: Seq<(Seq<char>, Seq<Seq<char>>)>,
    ps: Seq<Seq<GSym>>,
    ks: Seq<Seq<char>>,
) -> Seq<Seq<char>>
    decreases ps.len(),
{
    if ps.len() == 0 {
        ks
    } else {
        prod_keys(f1, ps.last(), prods_keys(f1, ps.drop_last(), ks))
    }
}

pub open spec fn rules_keys(
    g: Seq<(Seq<char>, Seq<Seq<GSym>>)>,
    f1: Seq<(Seq<char>, Seq<Seq<char>>)>,
    ks: Seq<Seq<char>>,
    n: int,
) -> Seq<Seq<char>>
    decreases n,
{
    if n <= 0 {
        ks
    } else {
        prods_keys(f1, g[n - 1].1, rules_keys(g, f1, ks, n - 1))
    }
}

/// Every nonterminal that ever receives a FOLLOW entry, in discovery
/// order: the start symbol first, then targets of the forward and trailing
/// rules in grammar order.
pub open spec fn follow_keys(
    g: Seq<(Seq<char>, Seq<Seq<GSym>>)>,
    f1: Seq<(Seq<char>, Seq<Seq<char>>)>,
    start: Seq<char>,
) -> Seq<Seq<char>> {
    rules_keys(g, f1, seq![start], g.len() as int)
}

/// The start of the FOLLOW iteration: the start symbol's set is seeded
/// with the end marker, all other touched nonterminals start empty.
pub open spec fn follow_init(ks: Seq<Seq<char>>, start: Seq<char>) -> Seq<
    (Seq<char>, Set<Seq<char>>),
> {
    Seq::new(
        ks.len(),
        |i: int|
            (
                ks[i],
                if ks[i] == start {
                    Set::empty().insert(end_marker())
                } else {
                    Set::<Seq<char>>::empty()
                },
            ),
    )
}

/// The state of the FOLLOW computation after `n` passes.
pub open spec fn follow_iter(
    g: Seq<(Seq<char>, Seq<Seq<GSym>>)>,
    f1: Seq<(Seq<char>, Seq<Seq<char>>)>,
    ks: Seq<Seq<char>>,
    start: Seq<char>,
    n: nat,
) -> Seq<(Seq<char>, Set<Seq<char>>)>
    decreases n,
{
    if n == 0 {
        follow_init(ks, start)
    } else {
        follow_step(g, f1, follow_iter(g, f1, ks, start, (n - 1) as nat))
    }
}

/// The FOLLOW computation is finished: the stored family carries exactly
/// the touched nonterminals, is a state the seeded iteration reaches, one
/// more pass would change nothing, and the end marker stands in the start
/// symbol's set.
pub open spec fn follow_computed(
    g: Seq<(Seq<char>, Seq<Seq<GSym>>)>,
    f1: Seq<(Seq<char>, Seq<Seq<char>>)>,
    start: Seq<char>,
    fm: Seq<(Seq<char>, Seq<Seq<char>>)>,
) -> bool {
    &&& keys_of(fm) == follow_keys(g, f1, start)
    &&& forall|i: int| 0 <= i < fm.len() ==> (#[trigger] fm[i].1).no_duplicates()
    &&& exists|n: nat| sets_view(fm) == follow_iter(g, f1, keys_of(fm), start, n)
    &&& follow_step(g, f1, sets_view(fm)) == sets_view(fm)
    &&& fm.len() > 0
    &&& fm[0].0 == start
    &&& fm[0].1.contains(end_marker())
}

/// `u` covers everything a FOLLOW set can ever receive: the end marker,
/// every terminal of every production, and every recorded FIRST lexeme.
pub open spec fn follow_universe_ok(
    g: Seq<(Seq<char>, Seq<Seq<GSym>>)>,
    f1: Seq<(Seq<char>, Seq<Seq<char>>)>,
    u: Set<Seq<char>>,
) -> bool {
    &&& u.contains(end_marker())
    &&& forall|i: int, j: int, k: int|
        0 <= i < g.len() && 0 <= j < g[i].1.len() && 0 <= k < g[i].1[j].len() ==> (
        #[trigger] g[i].1[j][k] matches GSym::Terminal(t) ==> u.contains(t))
    &&& forall|i: int, e: Seq<char>|
        0 <= i < f1.len() && #[trigger] f1[i].1.contains(e) ==> u.contains(e)
}

/// What a pass preserves and guarantees, stated for the basic update.
pub proof fn lemma_upd_set_props(
    st: Seq<(Seq<char>, Set<Seq<char>>)>,
    x: Seq<char>,
    add: Set<Seq<char>>,
    u: Set<Seq<char>>,
)
    requires
        add.subset_of(u),
        forall|i: int| 0 <= i < st.len() ==> (#[trigger] st[i].1).subset_of(u),
    ensures
        upd_set(st, x, add).len() == st.len(),
        forall|i: int| 0 <= i < st.len() ==> #[trigger] upd_set(st, x, add)[i].0 == st[i].0,
        forall|i: int|
            0 <= i < st.len() ==> st[i].1.subset_of(#[trigger] upd_set(st, x, add)[i].1),
        forall|i: int|
            0 <= i < st.len() ==> (#[trigger] upd_set(st, x, add)[i].1).subset_of(u),
{
}

/// `succ_terminals` stays inside the universe.
pub proof fn lemma_succ_terminals_bound(
    f1: Seq<(Seq<char>, Seq<Seq<char>>)>,
    s: GSym,
    u: Set<Seq<char>>,
)
    requires
        forall|i: int, e: Seq<char>|
            0 <= i < f1.len() && #[trigger] f1[i].1.contains(e) ==> u.contains(e),
        s matches GSym::Terminal(t) ==> u.contains(t),
    ensures
        succ_terminals(f1, s).subset_of(u),
{
    match s {
        GSym::Terminal(_) => {},
        GSym::Nonterminal(b) => {
            if assoc_get(f1, b) is Some {
                lemma_assoc_get_some_index(f1, b);
                let i = choose|i: int|
                    0 <= i < f1.len() && #[trigger] f1[i] == (b, assoc_get(f1, b)->Some_0);
                assert forall|e: Seq<char>| succ_terminals(f1, s).contains(e) implies u.contains(
                    e,
                ) by {
                    assert(f1[i].1.contains(e));
                }
            }
        },
    }
}

/// The forward rule preserves length and keys, only grows sets, and stays
/// inside the universe.
pub proof fn lemma_fwd_upto_props(
    f1: Seq<(Seq<char>, Seq<Seq<char>>)>,
    p: Seq<GSym>,
    st: Seq<(Seq<char>, Set<Seq<char>>)>,
    n: int,
    u: Set<Seq<char>>,
)
    requires
        n < p.len(),
        forall|k: int|
            0 <= k < p.len() ==> (#[trigger] p[k] matches GSym::Terminal(t) ==> u.contains(t)),
        forall|i: int, e: Seq<char>|
            0 <= i < f1.len() && #[trigger] f1[i].1.contains(e) ==> u.contains(e),
        forall|i: int| 0 <= i < st.len() ==> (#[trigger] st[i].1).subset_of(u),
    ensures
        fwd_upto(f1, p, st, n).len() == st.len(),
        forall|i: int| 0 <= i < st.len() ==> #[trigger] fwd_upto(f1, p, st, n)[i].0 == st[i].0,
        forall|i: int|
            0 <= i < st.len() ==> st[i].1.subset_of(#[trigger] fwd_upto(f1, p, st, n)[i].1),
        forall|i: int|
            0 <= i < st.len() ==> (#[trigger] fwd_upto(f1, p, st, n)[i].1).subset_of(u),
    decreases n,
{
    if n >= 1 {
        lemma_fwd_upto_props(f1, p, st, n - 1, u);
        let prev = fwd_upto(f1, p, st, n - 1);
        match p[n - 1] {
            GSym::Nonterminal(x) => {
                lemma_succ_terminals_bound(f1, p[n], u);
                lemma_upd_set_props(prev, x, succ_terminals(f1, p[n]), u);
            },
            GSym::Terminal(_) => {},
        }
    }
}

/// The trailing rule preserves length and keys, only grows sets, and
/// stays inside the universe.
pub proof fn lemma_trail_from_props(
    f1: Seq<(Seq<char>, Seq<Seq<char>>)>,
    hset: Set<Seq<char>>,
    p: Seq<GSym>,
    st: Seq<(Seq<char>, Set<Seq<char>>)>,
    j: int,
    u: Set<Seq<char>>,
)
    requires
        hset.subset_of(u),
        forall|i: int| 0 <= i < st.len() ==> (#[trigger] st[i].1).subset_of(u),
    ensures
        trail_from(f1, hset, p, st, j).len() == st.len(),
        forall|i: int|
            0 <= i < st.len() ==> #[trigger] trail_from(f1, hset, p, st, j)[i].0 == st[i].0,
        forall|i: int|
            0 <= i < st.len() ==> st[i].1.subset_of(#[trigger] trail_from(f1, hset, p, st, j)[i].1),
        forall|i: int|
            0 <= i < st.len() ==> (#[trigger] trail_from(f1, hset, p, st, j)[i].1).subset_of(u),
    decreases j + 1,
{
    if j >= 0 {
        match p[j] {
            GSym::Terminal(_) => {},
            GSym::Nonterminal(x) => {
                lemma_upd_set_props(st, x, hset, u);
                let st2 = upd_set(st, x, hset);
                if nullable_sym(f1, p[j]) {
                    lemma_trail_from_props(f1, hset, p, st2, j - 1, u);
                }
            },
        }
    }
}

/// `head_set` stays inside the universe.
pub proof fn lemma_head_set_bound(
    fp: Seq<(Seq<char>, Set<Seq<char>>)>,
    h: Seq<char>,
    u: Set<Seq<char>>,
)
    requires
        forall|i: int| 0 <= i < fp.len() ==> (#[trigger] fp[i].1).subset_of(u),
    ensures
        head_set(fp, h).subset_of(u),
{
    if assoc_get(fp, h) is Some {
        lemma_assoc_get_some_index(fp, h);
        let i = choose|i: int|
            0 <= i < fp.len() && #[trigger] fp[i] == (h, assoc_get(fp, h)->Some_0);
        assert(fp[i].1.subset_of(u));
    }
}

/// One production's whole effect: length and keys preserved, sets only
/// grow, universe respected.
pub proof fn lemma_prod_follow_props(
    f1: Seq<(Seq<char>, Seq<Seq<char>>)>,
    fp: Seq<(Seq<char>, Set<Seq<char>>)>,
    head: Seq<char>,
    p: Seq<GSym>,
    st: Seq<(Seq<char>, Set<Seq<char>>)>,
    u: Set<Seq<char>>,
)
    requires
        forall|k: int|
            0 <= k < p.len() ==> (#[trigger] p[k] matches GSym::Terminal(t) ==> u.contains(t)),
        forall|i: int, e: Seq<char>|
            0 <= i < f1.len() && #[trigger] f1[i].1.contains(e) ==> u.contains(e),
        forall|i: int| 0 <= i < fp.len() ==> (#[trigger] fp[i].1).subset_of(u),
        forall|i: int| 0 <= i < st.len() ==> (#[trigger] st[i].1).subset_of(u),
    ensures
        prod_follow_step(f1, fp, head, p, st).len() == st.len(),
        forall|i: int|
            0 <= i < st.len() ==> #[trigger] prod_follow_step(f1, fp, head, p, st)[i].0
                == st[i].0,
        forall|i: int|
            0 <= i < st.len() ==> st[i].1.subset_of(
                #[trigger] prod_follow_step(f1, fp, head, p, st)[i].1,
            ),
        forall|i: int|
            0 <= i < st.len() ==> (#[trigger] prod_follow_step(f1, fp, head, p, st)[i].1).subset_of(
                u,
            ),
{
    let mid = fwd_all(f1, p, st);
    if p.len() > 0 {
        lemma_fwd_upto_props(f1, p, st, p.len() - 1, u);
    }
    lemma_head_set_bound(fp, head, u);
    lemma_trail_from_props(f1, head_set(fp, head), p, mid, p.len() - 1, u);
}

/// All alternatives of one head.
pub proof fn lemma_prods_follow_props(
    f1: Seq<(Seq<char>, Seq<Seq<char>>)>,
    fp: Seq<(Seq<char>, Set<Seq<char>>)>,
    head: Seq<char>,
    ps: Seq<Seq<GSym>>,
    st: Seq<(Seq<char>, Set<Seq<char>>)>,
    u: Set<Seq<char>>,
)
    requires
        forall|j: int, k: int|
            0 <= j < ps.len() && 0 <= k < ps[j].len() ==> (#[trigger] ps[j][k] matches GSym::Terminal(
                t,
            ) ==> u.contains(t)),
        forall|i: int, e: Seq<char>|
            0 <= i < f1.len() && #[trigger] f1[i].1.contains(e) ==> u.contains(e),
        forall|i: int| 0 <= i < fp.len() ==> (#[trigger] fp[i].1).subset_of(u),
        forall|i: int| 0 <= i < st.len() ==> (#[trigger] st[i].1).subset_of(u),
    ensures
        prods_follow_step(f1, fp, head, ps, st).len() == st.len(),
        forall|i: int|
            0 <= i < st.len() ==> #[trigger] prods_follow_step(f1, fp, head, ps, st)[i].0
                == st[i].0,
        forall|i: int|
            0 <= i < st.len() ==> st[i].1.subset_of(
                #[trigger] prods_follow_step(f1, fp, head, ps, st)[i].1,
            ),
        forall|i: int|
            0 <= i < st.len() ==> (#[trigger] prods_follow_step(f1, fp, head, ps, st)[i].1).subset_of(
                u,
            ),
    decreases ps.len(),
{
    if ps.len() > 0 {
        assert forall|j: int| 0 <= j < ps.drop_last().len() implies ps.drop_last()[j]
            == ps[j] by {}
        lemma_prods_follow_props(f1, fp, head, ps.drop_last(), st, u);
        let mid = prods_follow_step(f1, fp, head, ps.drop_last(), st);
        assert(ps[ps.len() - 1] == ps.last());
        assert forall|k: int|
            0 <= k < ps.last().len() implies (#[trigger] ps.last()[k] matches GSym::Terminal(t)
            ==> u.contains(t)) by {
            assert(ps[ps.len() - 1][k] == ps.last()[k]);
        }
        lemma_prod_follow_props(f1, fp, head, ps.last(), mid, u);
    }
}

/// The first `n` grammar entries.
pub proof fn lemma_rules_follow_props(
    g: Seq<(Seq<char>, Seq<Seq<GSym>>)>,
    f1: Seq<(Seq<char>, Seq<Seq<char>>)>,
    fp: Seq<(Seq<char>, Set<Seq<char>>)>,
    st: Seq<(Seq<char>, Set<Seq<char>>)>,
    n: int,
    u: Set<Seq<char>>,
)
    requires
        n <= g.len(),
        follow_universe_ok(g, f1, u),
        forall|i: int| 0 <= i < fp.len() ==> (#[trigger] fp[i].1).subset_of(u),
        forall|i: int| 0 <= i < st.len() ==> (#[trigger] st[i].1).subset_of(u),
    ensures
        rules_follow_step(g, f1, fp, st, n).len() == st.len(),
        forall|i: int|
            0 <= i < st.len() ==> #[trigger] rules_follow_step(g, f1, fp, st, n)[i].0 == st[i].0,
        forall|i: int|
            0 <= i < st.len() ==> st[i].1.subset_of(
                #[trigger] rules_follow_step(g, f1, fp, st, n)[i].1,
            ),
        forall|i: int|
            0 <= i < st.len() ==> (#[trigger] rules_follow_step(g, f1, fp, st, n)[i].1).subset_of(
                u,
            ),
    decreases n,
{
    if n > 0 {
        lemma_rules_follow_props(g, f1, fp, st, n - 1, u);
        let mid = rules_follow_step(g, f1, fp, st, n - 1);
        assert forall|j: int, k: int|
            0 <= j < g[n - 1].1.len() && 0 <= k < g[n - 1].1[j].len() implies (
        #[trigger] g[n - 1].1[j][k] matches GSym::Terminal(t) ==> u.contains(t)) by {
            assert(g[n - 1].1[j][k] == g[n - 1].1[j][k]);
        }
        lemma_prods_follow_props(f1, fp, g[n - 1].0, g[n - 1].1, mid, u);
    }
}

/// Along the seeded iteration the start symbol's set always holds the end
/// marker, and every set stays inside the universe.
pub proof fn lemma_follow_iter_start(
    g: Seq<(Seq<char>, Seq<Seq<GSym>>)>,
    f1: Seq<(Seq<char>, Seq<Seq<char>>)>,
    ks: Seq<Seq<char>>,
    start: Seq<char>,
    n: nat,
    u: Set<Seq<char>>,
)
    requires
        follow_universe_ok(g, f1, u),
        ks.len() > 0,
        ks[0] == start,
    ensures
        follow_iter(g, f1, ks, start, n).len() == ks.len(),
        forall|i: int|
            0 <= i < ks.len() ==> #[trigger] follow_iter(g, f1, ks, start, n)[i].0 == ks[i],
        forall|i: int|
            0 <= i < ks.len() ==> (#[trigger] follow_iter(g, f1, ks, start, n)[i].1).subset_of(u),
        follow_iter(g, f1, ks, start, n)[0].1.contains(end_marker()),
    decreases n,
{
    if n == 0 {
    } else {
        lemma_follow_iter_start(g, f1, ks, start, (n - 1) as nat, u);
        let fp = follow_iter(g, f1, ks, start, (n - 1) as nat);
        lemma_rules_follow_props(g, f1, fp, fp, g.len() as int, u);
    }
}

/// Stores `v` under key `k`: an existing entry is replaced in place, a new
/// key is appended at the end.
pub open spec fn assoc_put<K, V>(m: Seq<(K, V)>, k: K, v: V) -> Seq<(K, V)>
    decreases m.len(),
{
    if m.len() == 0 {
        seq![(k, v)]
    } else if m[0].0 == k {
        seq![(k, v)] + m.drop_first()
    } else {
        seq![m[0]] + assoc_put(m.drop_first(), k, v)
    }
}

/// When `j` holds the first occurrence of `k`, storing replaces exactly
/// that entry.
pub proof fn lemma_assoc_put_at<K, V>(m: Seq<(K, V)>, k: K, v: V, j: int)
    requires
        0 <= j < m.len(),
        m[j].0 == k,
        forall|i: int| 0 <= i < j ==> m[i].0 != k,
    ensures
        assoc_put(m, k, v) =~= m.update(j, (k, v)),
    decreases j,
{
    if j > 0 {
        lemma_assoc_put_at(m.drop_first(), k, v, j - 1);
        assert(assoc_put(m, k, v) =~= seq![m[0]] + m.drop_first().update(j - 1, (k, v)));
    }
}

/// When `k` is absent, storing appends a new entry.
pub proof fn lemma_assoc_put_new<K, V>(m: Seq<(K, V)>, k: K, v: V)
    requires
        forall|i: int| 0 <= i < m.len() ==> m[i].0 != k,
    ensures
        assoc_put(m, k, v) =~= m.push((k, v)),
    decreases m.len(),
{
    if m.len() > 0 {
        lemma_assoc_put_new(m.drop_first(), k, v);
        assert(assoc_put(m, k, v) =~= seq![m[0]] + m.drop_first().push((k, v)));
    }
}

/// The stored lexeme list of the named set, empty if none is recorded.
pub open spec fn lexemes_of(f: Seq<(Seq<char>, Seq<Seq<char>>)>, name: Seq<char>) -> Seq<Seq<char>> {
    match assoc_get(f, name) {
        Some(l) => l,
        None => Seq::empty(),
    }
}

/// Registers one prediction-table cell. A later registration of the same
/// cell silently replaces the earlier one; the flag records that such an
/// overwrite happened.
pub open spec fn tbl_reg(
    st: (Seq<((Seq<char>, Seq<char>), (Seq<char>, Seq<GSym>))>, bool),
    a_name: Seq<char>,
    la: Seq<char>,
    val: (Seq<char>, Seq<GSym>),
) -> (Seq<((Seq<char>, Seq<char>), (Seq<char>, Seq<GSym>))>, bool) {
    (assoc_put(st.0, (a_name, la), val), st.1 || assoc_get(st.0, (a_name, la)) is Some)
}

/// Registers a cell for every lexeme of a FIRST set except the epsilon
/// marker, in stored order.
pub open spec fn tbl_reg_first(
    st: (Seq<((Seq<char>, Seq<char>), (Seq<char>, Seq<GSym>))>, bool),
    a_name: Seq<char>,
    lexs: Seq<Seq<char>>,
    val: (Seq<char>, Seq<GSym>),
) -> (Seq<((Seq<char>, Seq<char>), (Seq<char>, Seq<GSym>))>, bool)
    decreases lexs.len(),
{
    if lexs.len() == 0 {
        st
    } else {
        let st2 = tbl_reg_first(st, a_name, lexs.drop_last(), val);
        if lexs.last() == epsilon() {
            st2
        } else {
            tbl_reg(st2, a_name, lexs.last(), val)
        }
    }
}

/// Registers a cell for every lexeme of a FOLLOW set, in stored order.
pub open spec fn tbl_reg_follow(
    st: (Seq<((Seq<char>, Seq<char>), (Seq<char>, Seq<GSym>))>, bool),
    a_name: Seq<char>,
    lexs: Seq<Seq<char>>,
    val: (Seq<char>, Seq<GSym>),
) -> (Seq<((Seq<char>, Seq<char>), (Seq<char>, Seq<GSym>))>, bool)
    decreases lexs.len(),
{
    if lexs.len() == 0 {
        st
    } else {
        tbl_reg(tbl_reg_follow(st, a_name, lexs.drop_last(), val), a_name, lexs.last(), val)
    }
}

/// Scans production `p` of head `a_name` from position `i`: a terminal
/// registers its cell and stops; a nonterminal registers its FIRST set
/// without epsilon and continues only while that set holds the epsilon
/// marker; a scan that leaves the production registers the head's whole
/// FOLLOW set.
pub open spec fn tbl_scan(
    f1: Seq<(Seq<char>, Seq<Seq<char>>)>,
    f2: Seq<(Seq<char>, Seq<Seq<char>>)>,
    a_name: Seq<char>,
    p: Seq<GSym>,
    st: (Seq<((Seq<char>, Seq<char>), (Seq<char>, Seq<GSym>))>, bool),
    i: int,
) -> (Seq<((Seq<char>, Seq<char>), (Seq<char>, Seq<GSym>))>, bool)
    decreases p.len() - i,
{
    if i < 0 || i >= p.len() {
        tbl_reg_follow(st, a_name, lexemes_of(f2, a_name), (a_name, p))
    } else {
        match p[i] {
            GSym::Terminal(t) => tbl_reg(st, a_name, t, (a_name, p)),
            GSym::Nonterminal(b) => {
                let st2 = tbl_reg_first(st, a_name, lexemes_of(f1, b), (a_name, p));
                if nullable_sym(f1, p[i]) {
                    tbl_scan(f1, f2, a_name, p, st2, i + 1)
                } else {
                    st2
                }
            },
        }
    }
}

/// All alternatives of one head, in registration order.
pub open spec fn tbl_prods(
    f1: Seq<(Seq<char>, Seq<Seq<char>>)>,
    f2: Seq<(Seq<char>, Seq<Seq<char>>)>,
    a_name: Seq<char>,
    ps: Seq<Seq<GSym>>,
    st: (Seq<((Seq<char>, Seq<char>), (Seq<char>, Seq<GSym>))>, bool),
) -> (Seq<((Seq<char>, Seq<char>), (Seq<char>, Seq<GSym>))>, bool)
    decreases ps.len(),
{
    if ps.len() == 0 {
        st
    } else {
        tbl_scan(f1, f2, a_name, ps.last(), tbl_prods(f1, f2, a_name, ps.drop_last(), st), 0)
    }
}

/// The first `n` grammar entries.
pub open spec fn tbl_rules(
    g: Seq<(Seq<char>, Seq<Seq<GSym>>)>,
    f1: Seq<(Seq<char>, Seq<Seq<char>>)>,
    f2: Seq<(Seq<char>, Seq<Seq<char>>)>,
    st: (Seq<((Seq<char>, Seq<char>), (Seq<char>, Seq<GSym>))>, bool),
    n: int,
) -> (Seq<((Seq<char>, Seq<char>), (Seq<char>, Seq<GSym>))>, bool)
    decreases n,
{
    if n <= 0 {
        st
    } else {
        tbl_prods(f1, f2, g[n - 1].0, g[n - 1].1, tbl_rules(g, f1, f2, st, n - 1))
    }
}

/// The whole prediction table derived from a grammar and its FIRST and
/// FOLLOW sets, with the flag telling whether any cell was written twice.
pub open spec fn table_build(
    g: Seq<(Seq<char>, Seq<Seq<GSym>>)>,
    f1: Seq<(Seq<char>, Seq<Seq<char>>)>,
    f2: Seq<(Seq<char>, Seq<Seq<char>>)>,
) -> (Seq<((Seq<char>, Seq<char>), (Seq<char>, Seq<GSym>))>, bool) {
    tbl_rules(g, f1, f2, (Seq::empty(), false), g.len() as int)
}

/// The lookaheads under which the table-builder scan, started at position
/// `i`, selects a production of head `a_name`: its predict set.
pub open spec fn scan_predict(
    f1: Seq<(Seq<char>, Seq<Seq<char>>)>,
    f2: Seq<(Seq<char>, Seq<Seq<char>>)>,
    a_name: Seq<char>,
    p: Seq<GSym>,
    i: int,
) -> Set<Seq<char>>
    decreases p.len() - i,
{
    if i < 0 || i >= p.len() {
        lexemes_of(f2, a_name).to_set()
    } else {
        match p[i] {
            GSym::Terminal(t) => Set::empty().insert(t),
            GSym::Nonterminal(b) => {
                let s = lexemes_of(f1, b).to_set().remove(epsilon());
                if nullable_sym(f1, p[i]) {
                    s.union(scan_predict(f1, f2, a_name, p, i + 1))
                } else {
                    s
                }
            },
        }
    }
}

/// No two alternatives of one head predict a common lookahead: the grammar
/// is free of FIRST/FIRST and FIRST/FOLLOW conflicts.
pub open spec fn ll1_conflict_free(
    g: Seq<(Seq<char>, Seq<Seq<GSym>>)>,
    f1: Seq<(Seq<char>, Seq<Seq<char>>)>,
    f2: Seq<(Seq<char>, Seq<Seq<char>>)>,
) -> bool {
    forall|i: int, j: int, j2: int|
        #![trigger scan_predict(f1, f2, g[i].0, g[i].1[j], 0), scan_predict(f1, f2, g[i].0, g[i].1[j2], 0)]
        0 <= i < g.len() && 0 <= j < j2 < g[i].1.len() ==> scan_predict(
            f1,
            f2,
            g[i].0,
            g[i].1[j],
            0,
        ).disjoint(scan_predict(f1, f2, g[i].0, g[i].1[j2], 0))
}

/// Storing under one key answers later lookups of that key with the new
/// value and leaves every other key's answer unchanged.
pub proof fn lemma_assoc_put_get<K, V>(m: Seq<(K, V)>, k: K, v: V, k2: K)
    ensures
        assoc_get(assoc_put(m, k, v), k2) == (if k2 == k {
            Some(v)
        } else {
            assoc_get(m, k2)
        }),
    decreases m.len(),
{
    let r = assoc_put(m, k, v);
    if m.len() == 0 {
        assert(r =~= seq![(k, v)]);
        assert(r[0] == (k, v));
        assert(r.drop_first() =~= Seq::<(K, V)>::empty());
        if k2 == k {
            assert(r[0].0 == k2);
            assert(assoc_get(r, k2) == Some(v));
        } else {
            assert(r[0].0 != k2);
            assert(assoc_get(r.drop_first(), k2) is None);
        }
    } else if m[0].0 == k {
        assert(r =~= seq![(k, v)] + m.drop_first());
        assert(r[0] == (k, v));
        assert(r.drop_first() =~= m.drop_first());
        if k2 == k {
            assert(assoc_get(r, k2) == Some(v));
        } else {
            assert(assoc_get(r, k2) == assoc_get(m.drop_first(), k2));
            assert(assoc_get(m, k2) == assoc_get(m.drop_first(), k2));
        }
    } else {
        lemma_assoc_put_get(m.drop_first(), k, v, k2);
        assert(r =~= seq![m[0]] + assoc_put(m.drop_first(), k, v));
        assert(r.drop_first() =~= assoc_put(m.drop_first(), k, v));
        assert(r[0] == m[0]);
        assert(r.len() > 0);
        if r[0].0 == k2 {
            assert(assoc_get(r, k2) == Some(m[0].1));
            assert(assoc_get(m, k2) == Some(m[0].1));
            assert(k2 != k);
        } else {
            assert(assoc_get(r, k2) == assoc_get(assoc_put(m.drop_first(), k, v), k2));
            assert(assoc_get(m, k2) == assoc_get(m.drop_first(), k2));
        }
    }
}

/// Registering the lexemes of a FIRST set fills exactly the cells of those
/// lexemes, the epsilon marker excluded.
pub proof fn lemma_tbl_reg_first_get(
    st: (Seq<((Seq<char>, Seq<char>), (Seq<char>, Seq<GSym>))>, bool),
    a_name: Seq<char>,
    lexs: Seq<Seq<char>>,
    val: (Seq<char>, Seq<GSym>),
    x: Seq<char>,
    la: Seq<char>,
)
    ensures
        assoc_get(tbl_reg_first(st, a_name, lexs, val).0, (x, la)) == (if x == a_name
            && lexs.contains(la) && la != epsilon() {
            Some(val)
        } else {
            assoc_get(st.0, (x, la))
        }),
    decreases lexs.len(),
{
    if lexs.len() > 0 {
        lemma_tbl_reg_first_get(st, a_name, lexs.drop_last(), val, x, la);
        let st2 = tbl_reg_first(st, a_name, lexs.drop_last(), val);
        if lexs.last() != epsilon() {
            lemma_assoc_put_get(st2.0, (a_name, lexs.last()), val, (x, la));
        }
        assert(lexs.contains(la) <==> lexs.drop_last().contains(la) || lexs.last() == la) by {
            if lexs.contains(la) {
                let w = choose|w: int| 0 <= w < lexs.len() && lexs[w] == la;
                if w < lexs.len() - 1 {
                    assert(lexs.drop_last()[w] == la);
                }
            }
            if lexs.drop_last().contains(la) {
                let w = choose|w: int|
                    0 <= w < lexs.drop_last().len() && lexs.drop_last()[w] == la;
                assert(lexs[w] == la);
            }
        }
    }
}

/// Registering the lexemes of a FOLLOW set fills exactly their cells.
pub proof fn lemma_tbl_reg_follow_get(
    st: (Seq<((Seq<char>, Seq<char>), (Seq<char>, Seq<GSym>))>, bool),
    a_name: Seq<char>,
    lexs: Seq<Seq<char>>,
    val: (Seq<char>, Seq<GSym>),
    x: Seq<char>,
    la: Seq<char>,
)
    ensures
        assoc_get(tbl_reg_follow(st, a_name, lexs, val).0, (x, la)) == (if x == a_name
            && lexs.contains(la) {
            Some(val)
        } else {
            assoc_get(st.0, (x, la))
        }),
    decreases lexs.len(),
{
    if lexs.len() > 0 {
        lemma_tbl_reg_follow_get(st, a_name, lexs.drop_last(), val, x, la);
        let st2 = tbl_reg_follow(st, a_name, lexs.drop_last(), val);
        lemma_assoc_put_get(st2.0, (a_name, lexs.last()), val, (x, la));
        assert(lexs.contains(la) <==> lexs.drop_last().contains(la) || lexs.last() == la) by {
            if lexs.contains(la) {
                let w = choose|w: int| 0 <= w < lexs.len() && lexs[w] == la;
                if w < lexs.len() - 1 {
                    assert(lexs.drop_last()[w] == la);
                }
            }
            if lexs.drop_last().contains(la) {
                let w = choose|w: int|
                    0 <= w < lexs.drop_last().len() && lexs.drop_last()[w] == la;
                assert(lexs[w] == la);
            }
        }
    }
}

/// The scan of one production fills exactly the cells of its predict set,
/// all with that production, and leaves every other cell unchanged.
pub proof fn lemma_tbl_scan_get(
    f1: Seq<(Seq<char>, Seq<Seq<char>>)>,
    f2: Seq<(Seq<char>, Seq<Seq<char>>)>,
    a_name: Seq<char>,
    p: Seq<GSym>,
    st: (Seq<((Seq<char>, Seq<char>), (Seq<char>, Seq<GSym>))>, bool),
    i: int,
    x: Seq<char>,
    la: Seq<char>,
)
    ensures
        assoc_get(tbl_scan(f1, f2, a_name, p, st, i).0, (x, la)) == (if x == a_name
            && scan_predict(f1, f2, a_name, p, i).contains(la) {
            Some((a_name, p))
        } else {
            assoc_get(st.0, (x, la))
        }),
    decreases p.len() - i,
{
    if i < 0 || i >= p.len() {
        lemma_tbl_reg_follow_get(st, a_name, lexemes_of(f2, a_name), (a_name, p), x, la);
    } else {
        match p[i] {
            GSym::Terminal(t) => {
                lemma_assoc_put_get(st.0, (a_name, t), (a_name, p), (x, la));
            },
            GSym::Nonterminal(b) => {
                lemma_tbl_reg_first_get(st, a_name, lexemes_of(f1, b), (a_name, p), x, la);
                let st2 = tbl_reg_first(st, a_name, lexemes_of(f1, b), (a_name, p));
                if nullable_sym(f1, p[i]) {
                    lemma_tbl_scan_get(f1, f2, a_name, p, st2, i + 1, x, la);
                }
            },
        }
    }
}

/// All alternatives of one head: the unique predicting alternative owns the
/// cell; cells of other heads or lookaheads stay as they were.
pub proof fn lemma_tbl_prods_get(
    f1: Seq<(Seq<char>, Seq<Seq<char>>)>,
    f2: Seq<(Seq<char>, Seq<Seq<char>>)>,
    a_name: Seq<char>,
    ps: Seq<Seq<GSym>>,
    st: (Seq<((Seq<char>, Seq<char>), (Seq<char>, Seq<GSym>))>, bool),
    x: Seq<char>,
    la: Seq<char>,
)
    requires
        forall|j: int, j2: int|
            #![trigger scan_predict(f1, f2, a_name, ps[j], 0), scan_predict(f1, f2, a_name, ps[j2], 0)]
            0 <= j < j2 < ps.len() ==> scan_predict(f1, f2, a_name, ps[j], 0).disjoint(
                scan_predict(f1, f2, a_name, ps[j2], 0),
            ),
    ensures
        forall|j: int|
            0 <= j < ps.len() && x == a_name && (#[trigger] scan_predict(
                f1,
                f2,
                a_name,
                ps[j],
                0,
            )).contains(la) ==> assoc_get(tbl_prods(f1, f2, a_name, ps, st).0, (x, la)) == Some(
                (a_name, ps[j]),
            ),
        (x != a_name || forall|j: int|
            0 <= j < ps.len() ==> !(#[trigger] scan_predict(f1, f2, a_name, ps[j], 0)).contains(
                la,
            )) ==> assoc_get(tbl_prods(f1, f2, a_name, ps, st).0, (x, la)) == assoc_get(
            st.0,
            (x, la),
        ),
    decreases ps.len(),
{
    if ps.len() > 0 {
        assert forall|j: int, j2: int|
            #![trigger scan_predict(f1, f2, a_name, ps.drop_last()[j], 0), scan_predict(f1, f2, a_name, ps.drop_last()[j2], 0)]
            0 <= j < j2 < ps.drop_last().len() implies scan_predict(
            f1,
            f2,
            a_name,
            ps.drop_last()[j],
            0,
        ).disjoint(scan_predict(f1, f2, a_name, ps.drop_last()[j2], 0)) by {
            assert(ps.drop_last()[j] == ps[j]);
            assert(ps.drop_last()[j2] == ps[j2]);
        }
        lemma_tbl_prods_get(f1, f2, a_name, ps.drop_last(), st, x, la);
        let mid = tbl_prods(f1, f2, a_name, ps.drop_last(), st);
        lemma_tbl_scan_get(f1, f2, a_name, ps.last(), mid, 0, x, la);
        assert(ps[ps.len() - 1] == ps.last());
        assert forall|j: int|
            0 <= j < ps.len() && x == a_name && (#[trigger] scan_predict(
            f1,
            f2,
            a_name,
            ps[j],
            0,
        )).contains(la) implies assoc_get(tbl_prods(f1, f2, a_name, ps, st).0, (x, la)) == Some(
            (a_name, ps[j]),
        ) by {
            if j == ps.len() - 1 {
            } else {
                assert(ps.drop_last()[j] == ps[j]);
                assert(scan_predict(f1, f2, a_name, ps[j], 0).disjoint(
                    scan_predict(f1, f2, a_name, ps[ps.len() - 1], 0),
                ));
                assert(!scan_predict(f1, f2, a_name, ps.last(), 0).contains(la));
            }
        }
        assert forall|j: int| 0 <= j < ps.drop_last().len() implies ps.drop_last()[j] == ps[j] by {}
    }
}

/// The table of a conflict-free grammar is total on predicted pairs: for
/// every production and every lookahead in its predict set, the one cell
/// under that (head, lookahead) pair holds exactly that production. This is
/// the table-level content of LL(1) totality: during a valid derivation an
/// expansion of a nonterminal is only ever attempted under a lookahead some
/// alternative predicts, and the cell then answers with that alternative.
pub proof fn lemma_table_totality(
    g: Seq<(Seq<char>, Seq<Seq<GSym>>)>,
    f1: Seq<(Seq<char>, Seq<Seq<char>>)>,
    f2: Seq<(Seq<char>, Seq<Seq<char>>)>,
    i: int,
    j: int,
    la: Seq<char>,
)
    requires
        keys_unique(g),
        ll1_conflict_free(g, f1, f2),
        0 <= i < g.len(),
        0 <= j < g[i].1.len(),
        scan_predict(f1, f2, g[i].0, g[i].1[j], 0).contains(la),
    ensures
        assoc_get(table_build(g, f1, f2).0, (g[i].0, la)) == Some((g[i].0, g[i].1[j])),
{
    lemma_tbl_rules_get(g, f1, f2, (Seq::empty(), false), g.len() as int, i, j, la);
}

/// The cells of each head are settled by that head's own alternatives and
/// survive the registration of every later head.
proof fn lemma_tbl_rules_get(
    g: Seq<(Seq<char>, Seq<Seq<GSym>>)>,
    f1: Seq<(Seq<char>, Seq<Seq<char>>)>,
    f2: Seq<(Seq<char>, Seq<Seq<char>>)>,
    st: (Seq<((Seq<char>, Seq<char>), (Seq<char>, Seq<GSym>))>, bool),
    n: int,
    i: int,
    j: int,
    la: Seq<char>,
)
    requires
        keys_unique(g),
        ll1_conflict_free(g, f1, f2),
        n <= g.len(),
        0 <= i < n,
        0 <= j < g[i].1.len(),
        scan_predict(f1, f2, g[i].0, g[i].1[j], 0).contains(la),
    ensures
        assoc_get(tbl_rules(g, f1, f2, st, n).0, (g[i].0, la)) == Some((g[i].0, g[i].1[j])),
    decreases n,
{
    let mid = tbl_rules(g, f1, f2, st, n - 1);
    assert forall|j1: int, j2: int|
        #![trigger scan_predict(f1, f2, g[n - 1].0, g[n - 1].1[j1], 0), scan_predict(f1, f2, g[n - 1].0, g[n - 1].1[j2], 0)]
        0 <= j1 < j2 < g[n - 1].1.len() implies scan_predict(
        f1,
        f2,
        g[n - 1].0,
        g[n - 1].1[j1],
        0,
    ).disjoint(scan_predict(f1, f2, g[n - 1].0, g[n - 1].1[j2], 0)) by {}
    lemma_tbl_prods_get(f1, f2, g[n - 1].0, g[n - 1].1, mid, g[i].0, la);
    if i == n - 1 {
    } else {
        assert(g[i].0 != g[n - 1].0);
        lemma_tbl_rules_get(g, f1, f2, st, n - 1, i, j, la);
    }
}

/// One record of the derivation trace: the stack before the step (bottom
/// first), the input not yet consumed, and the expansion applied, `None`
/// where a terminal was matched.
pub ghost struct TraceRec {
    pub stack: Seq<GSym>,
    pub remaining: Seq<Seq<char>>,
    pub expansion: Option<(Seq<char>, Seq<GSym>)>,
}

/// How a run of the parse driver ends.
pub ghost enum DriveOutcome {
    /// The end marker was matched: `consumed` counts every
    /// terminal-consuming transition including that final one, `left` is
    /// the stack under the popped end marker, `trace` the emitted records.
    Accepted { consumed: nat, left: Seq<GSym>, trace: Seq<TraceRec> },
    /// The terminal on the stack differs from the lookahead.
    UnexpectedTerminal { expected: Seq<char>, found: Seq<char>, at: nat },
    /// The table holds no cell for the nonterminal under this lookahead.
    NoProduction { nonterminal: Seq<char>, lookahead: Seq<char>, at: nat },
    /// The step budget ran out.
    OutOfSteps,
    /// The stack or the input ran out; unreachable from the driver's start
    /// state when the input ends with the end marker.
    Stuck,
}

/// The pushdown driver: one recursive unfolding per transition of the
/// machine described by the prediction table.
pub open spec fn drive(
    tm: Seq<((Seq<char>, Seq<char>), (Seq<char>, Seq<GSym>))>,
    stack: Seq<GSym>,
    input: Seq<Seq<char>>,
    pos: nat,
    fuel: nat,
) -> DriveOutcome
    decreases fuel,
{
    if fuel == 0 {
        DriveOutcome::OutOfSteps
    } else if stack.len() == 0 || pos >= input.len() {
        DriveOutcome::Stuck
    } else {
        let x = stack.last();
        let a = input[pos as int];
        match x {
            GSym::Terminal(tx) => {
                if tx == a {
                    if tx == end_marker() {
                        DriveOutcome::Accepted {
                            consumed: pos + 1,
                            left: stack.drop_last(),
                            trace: Seq::empty(),
                        }
                    } else {
                        let rec = TraceRec {
                            stack: stack,
                            remaining: input.skip(pos as int),
                            expansion: None,
                        };
                        match drive(tm, stack.drop_last(), input, pos + 1, (fuel - 1) as nat) {
                            DriveOutcome::Accepted { consumed, left, trace } => DriveOutcome::Accepted {
                                consumed,
                                left,
                                trace: seq![rec] + trace,
                            },
                            other => other,
                        }
                    }
                } else {
                    DriveOutcome::UnexpectedTerminal { expected: tx, found: a, at: pos }
                }
            },
            GSym::Nonterminal(nx) => {
                match assoc_get(tm, (nx, a)) {
                    Some(v) => {
                        let rec = TraceRec {
                            stack: stack,
                            remaining: input.skip(pos as int),
                            expansion: Some(v),
                        };
                        let newstack = stack.drop_last() + v.1.reverse();
                        match drive(tm, newstack, input, pos, (fuel - 1) as nat) {
                            DriveOutcome::Accepted { consumed, left, trace } => DriveOutcome::Accepted {
                                consumed,
                                left,
                                trace: seq![rec] + trace,
                            },
                            other => other,
                        }
                    },
                    None => DriveOutcome::NoProduction { nonterminal: nx, lookahead: a, at: pos },
                }
            },
        }
    }
}

/// Stack discipline: starting from a stack whose only end marker sits at
/// the bottom, on an input whose only end marker is its last token, an
/// accepted run consumes exactly the whole input — one consuming
/// transition per input terminal, the end marker included — and accepts
/// with nothing left under the popped end marker.
pub proof fn lemma_drive_stack_discipline(
    tm: Seq<((Seq<char>, Seq<char>), (Seq<char>, Seq<GSym>))>,
    stack: Seq<GSym>,
    input: Seq<Seq<char>>,
    pos: nat,
    fuel: nat,
)
    requires
        input.len() > 0,
        input[input.len() - 1] == end_marker(),
        forall|i: int| 0 <= i < input.len() - 1 ==> input[i] != end_marker(),
        pos < input.len(),
        stack.len() > 0,
        stack[0] == GSym::Terminal(end_marker()),
        forall|i: int| 1 <= i < stack.len() ==> stack[i] != GSym::Terminal(end_marker()),
        forall|i: int, j: int|
            0 <= i < tm.len() && 0 <= j < tm[i].1.1.len() ==> #[trigger] tm[i].1.1[j]
                != GSym::Terminal(end_marker()),
    ensures
        drive(tm, stack, input, pos, fuel) matches DriveOutcome::Accepted { consumed, left, .. }
            ==> consumed == input.len() && left == Seq::<GSym>::empty(),
    decreases fuel,
{
    if fuel == 0 {
    } else {
        let x = stack.last();
        let a = input[pos as int];
        match x {
            GSym::Terminal(tx) => {
                if tx == a {
                    if tx == end_marker() {
                        assert(stack[stack.len() - 1] == x);
                        assert(stack.len() == 1);
                        assert(stack.drop_last() =~= Seq::<GSym>::empty());
                        assert(a == input[pos as int]);
                        assert(pos == input.len() - 1);
                    } else {
                        assert(stack[stack.len() - 1] == x);
                        assert(stack.len() >= 2);
                        assert(a != end_marker());
                        assert(pos < input.len() - 1);
                        let st2 = stack.drop_last();
                        assert forall|i: int| 1 <= i < st2.len() implies st2[i] != GSym::Terminal(
                            end_marker(),
                        ) by {
                            assert(st2[i] == stack[i]);
                        }
                        lemma_drive_stack_discipline(tm, st2, input, pos + 1, (fuel - 1) as nat);
                    }
                }
            },
            GSym::Nonterminal(nx) => {
                match assoc_get(tm, (nx, a)) {
                    Some(v) => {
                        lemma_assoc_get_some_index(tm, (nx, a));
                        let w = choose|i: int|
                            0 <= i < tm.len() && #[trigger] tm[i] == ((nx, a), v);
                        let newstack = stack.drop_last() + v.1.reverse();
                        assert(stack[stack.len() - 1] == x);
                        assert(stack.len() >= 2);
                        assert(newstack.len() > 0);
                        assert(newstack[0] == stack[0]);
                        assert forall|i: int| 1 <= i < newstack.len() implies newstack[i]
                            != GSym::Terminal(end_marker()) by {
                            if i < stack.len() - 1 {
                                assert(newstack[i] == stack[i]);
                            } else {
                                let r = v.1.reverse();
                                assert(newstack[i] == r[i - (stack.len() - 1)]);
                                assert(r[i - (stack.len() - 1)] == v.1[v.1.len() - 1 - (i - (
                                stack.len() - 1))]);
                                assert(tm[w].1.1 == v.1);
                            }
                        }
                        lemma_drive_stack_discipline(tm, newstack, input, pos, (fuel - 1) as nat);
                    },
                    None => {},
                }
            },
        }
    }
}

/// A duplicate-free list whose elements all occur in `u` is no longer than
/// `u`.
pub proof fn lemma_unique_subset_len(s: Seq<Seq<char>>, u: Seq<Seq<char>>)
    requires
        s.no_duplicates(),
        s.to_set().subset_of(u.to_set()),
    ensures
        s.len() <= u.len(),
{
    broadcast use vstd::seq_lib::seq_to_set_is_finite;

    s.unique_seq_to_set();
    vstd::set_lib::lemma_len_subset(s.to_set(), u.to_set());
    u.lemma_cardinality_of_set();
}

/// A single pass never removes an element from any FIRST set.
pub proof fn lemma_first_step_monotone(
    g: Seq<(Seq<char>, Seq<Seq<GSym>>)>,
    f: Seq<(Seq<char>, Set<Seq<char>>)>,
)
    requires
        f.len() == g.len(),
    ensures
        forall|i: int|
            0 <= i < g.len() ==> f[i].1.subset_of(#[trigger] first_step(g, f)[i].1),
{
}

/// FIRST sets only grow across iterations.
pub proof fn lemma_first_iter_monotone(g: Seq<(Seq<char>, Seq<Seq<GSym>>)>, m: nat, n: nat)
    requires
        m <= n,
    ensures
        first_iter(g, m).len() == g.len(),
        first_iter(g, n).len() == g.len(),
        forall|i: int|
            0 <= i < g.len() ==> (#[trigger] first_iter(g, m)[i].1).subset_of(
                first_iter(g, n)[i].1,
            ),
    decreases n,
{
    if n > 0 {
        if m == n {
            lemma_first_iter_monotone(g, (n - 1) as nat, (n - 1) as nat);
        } else {
            lemma_first_iter_monotone(g, m, (n - 1) as nat);
            lemma_first_step_monotone(g, first_iter(g, (n - 1) as nat));
        }
    }
}

} // verus!
