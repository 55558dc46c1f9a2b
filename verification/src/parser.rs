//! The LL(1) parser proper: grammar registration, the FIRST/FOLLOW engines,
//! the prediction table and the table-driven parse driver.

use vstd::prelude::*;

use crate::model::{
    add_key, assoc_append, assoc_get, end_marker, epsilon, first_computed, first_init, first_iter,
    first_step, first_universe_ok, follow_computed, follow_init, follow_iter, follow_keys,
    follow_step, follow_universe_ok, fwd_all, fwd_keys, fwd_keys_upto, fwd_upto, head_set,
    keys_of, keys_unique, lemma_assoc_append_at, lemma_assoc_append_new, lemma_assoc_get_at,
    lemma_assoc_get_none, lemma_follow_iter_start, lemma_prods_first_bound,
    lemma_rules_follow_props, lemma_total_size_le_cap, lemma_total_size_pointwise_lt,
    lemma_unique_subset_len, nullable_sym, prod_first, prod_follow_step, prod_keys, prods_first,
    prods_follow_step, prods_keys, rules_follow_step, rules_keys, sets_view, size_cap,
    succ_terminals, total_size, trail_from, trail_keys_from, upd_set, GSym,
};
use crate::model::{
    assoc_put, drive, lemma_assoc_put_at, lemma_assoc_put_new, lexemes_of, table_build, tbl_prods,
    tbl_reg, tbl_reg_first, tbl_reg_follow, tbl_rules, tbl_scan, DriveOutcome, TraceRec,
};
use crate::sets::{contains_str, extend_absent, find_key, push_absent};

verus! {

/// A grammar symbol. `Terminal(lexeme)` appears literally in input;
/// `Nonterminal(name)` is expandable through productions. The empty lexeme
/// `Terminal("")` is the reserved epsilon marker and `Terminal("$")` the
/// reserved end-of-input marker.
#[derive(Debug, PartialEq, Eq, Hash)]
pub enum Symbol {
    Nonterminal(String),
    Terminal(String),
}

impl View for Symbol {
    type V = GSym;

    open spec fn view(&self) -> GSym {
        match self {
            Symbol::Nonterminal(n) => GSym::Nonterminal(n@),
            Symbol::Terminal(t) => GSym::Terminal(t@),
        }
    }
}

impl DeepView for Symbol {
    type V = GSym;

    open spec fn deep_view(&self) -> GSym {
        self.view()
    }
}

impl Clone for Symbol {
    fn clone(&self) -> (r: Self)
        ensures
            r@ == self@,
    {
        match self {
            Symbol::Nonterminal(n) => Symbol::Nonterminal(n.clone()),
            Symbol::Terminal(t) => Symbol::Terminal(t.clone()),
        }
    }
}

/// The analysis engine: an ordered collection of productions per nonterminal,
/// the derived FIRST and FOLLOW sets, the prediction table, and the start
/// symbol used to seed the FOLLOW computation.
pub struct Parser {
    first: Vec<(String, Vec<String>)>,
    follow: Vec<(String, Vec<String>)>,
    rules: Vec<(String, Vec<Vec<Symbol>>)>,
    start_symbol: String,
    table: Vec<((String, String), (String, Vec<Symbol>))>,
}

impl Parser {
    /// The registered grammar: per nonterminal name, its alternatives in
    /// registration order.
    pub closed spec fn rules_model(self) -> Seq<(Seq<char>, Seq<Seq<GSym>>)> {
        self.rules.deep_view()
    }

    /// The stored FIRST sets, as ordered duplicate-free lexeme lists.
    pub closed spec fn first_model(self) -> Seq<(Seq<char>, Seq<Seq<char>>)> {
        self.first.deep_view()
    }

    /// The stored FOLLOW sets, as ordered duplicate-free lexeme lists.
    pub closed spec fn follow_model(self) -> Seq<(Seq<char>, Seq<Seq<char>>)> {
        self.follow.deep_view()
    }

    /// The prediction table: (nonterminal, lookahead) to (owner, production).
    pub closed spec fn table_model(self) -> Seq<
        ((Seq<char>, Seq<char>), (Seq<char>, Seq<GSym>)),
    > {
        self.table.deep_view()
    }

    /// The designated start symbol's name.
    pub closed spec fn start_model(self) -> Seq<char> {
        self.start_symbol@
    }

    /// Registered nonterminals have pairwise distinct names.
    pub closed spec fn wf(self) -> bool {
        keys_unique(self.rules_model())
    }

    /// An empty grammar: no productions, no derived sets, an unnamed start
    /// symbol.
    pub fn new() -> (p: Parser)
        ensures
            p.wf(),
            p.rules_model() == Seq::<(Seq<char>, Seq<Seq<GSym>>)>::empty(),
            p.first_model() == Seq::<(Seq<char>, Seq<Seq<char>>)>::empty(),
            p.follow_model() == Seq::<(Seq<char>, Seq<Seq<char>>)>::empty(),
            p.table_model() == Seq::<((Seq<char>, Seq<char>), (Seq<char>, Seq<GSym>))>::empty(),
            p.start_model() == Seq::<char>::empty(),
    {
        let p = Parser {
            first: Vec::new(),
            follow: Vec::new(),
            rules: Vec::new(),
            start_symbol: String::new(),
            table: Vec::new(),
        };
        proof {
            assert(p.rules_model() =~= Seq::<(Seq<char>, Seq<Seq<GSym>>)>::empty());
            assert(p.first_model() =~= Seq::<(Seq<char>, Seq<Seq<char>>)>::empty());
            assert(p.follow_model() =~= Seq::<(Seq<char>, Seq<Seq<char>>)>::empty());
            assert(p.table_model() =~= Seq::<
                ((Seq<char>, Seq<char>), (Seq<char>, Seq<GSym>)),
            >::empty());
        }
        p
    }

    /// Records the nonterminal whose FOLLOW set is seeded with the end
    /// marker. Must name a registered nonterminal before analysis runs for
    /// the analysis to be meaningful; this is not validated here.
    pub fn set_start_symbol(&mut self, start_symbol: &str)
        ensures
            final(self).start_model() == start_symbol@,
            final(self).rules_model() == old(self).rules_model(),
            final(self).first_model() == old(self).first_model(),
            final(self).follow_model() == old(self).follow_model(),
            final(self).table_model() == old(self).table_model(),
            final(self).wf() == old(self).wf(),
    {
        self.start_symbol = start_symbol.to_string();
    }

    /// Appends one alternative production for `lhs`, creating its entry if
    /// the nonterminal is not yet registered. Referenced nonterminals are
    /// not validated; a dangling reference surfaces only as missing analysis
    /// entries later.
    pub fn add_rule(&mut self, lhs: &str, rhs: Vec<Symbol>)
        requires
            old(self).wf(),
        ensures
            final(self).wf(),
            final(self).rules_model() == assoc_append(
                old(self).rules_model(),
                lhs@,
                rhs.deep_view(),
            ),
            final(self).first_model() == old(self).first_model(),
            final(self).follow_model() == old(self).follow_model(),
            final(self).table_model() == old(self).table_model(),
            final(self).start_model() == old(self).start_model(),
    {
        let ghost old_dv = self.rules.deep_view();
        let key = lhs.to_string();
        match find_key(&self.rules, &key) {
            Some(j) => {
                let entry = self.rules.remove(j);
                let ghost mid = self.rules@;
                let (name, mut alts) = entry;
                alts.push(rhs);
                let new_entry = (name, alts);
                let ghost ev = new_entry;
                self.rules.insert(j, new_entry);
                proof {
                    assert forall|i: int| 0 <= i < j implies old_dv[i].0 != lhs@ by {
                        assert(old_dv[i].0 == old(self).rules@[i].0@);
                    }
                    assert(old_dv[j as int].0 == lhs@);
                    lemma_assoc_append_at(old_dv, lhs@, rhs.deep_view(), j as int);
                    old(self).rules@.remove_ensures(j as int);
                    mid.insert_ensures(j as int, ev);
                    assert(ev.1.deep_view() =~= old_dv[j as int].1.push(rhs.deep_view()));
                    assert(self.rules.deep_view() =~~= old_dv.update(
                        j as int,
                        (old_dv[j as int].0, old_dv[j as int].1.push(rhs.deep_view())),
                    ));
                }
            },
            None => {
                let mut alts: Vec<Vec<Symbol>> = Vec::new();
                alts.push(rhs);
                let new_entry = (key, alts);
                let ghost ev = new_entry;
                self.rules.push(new_entry);
                proof {
                    assert forall|i: int| 0 <= i < old_dv.len() implies old_dv[i].0 != lhs@ by {
                        assert(old_dv[i].0 == old(self).rules@[i].0@);
                    }
                    lemma_assoc_append_new(old_dv, lhs@, rhs.deep_view());
                    assert(ev.1.deep_view() =~= seq![rhs.deep_view()]);
                    assert(self.rules.deep_view() =~~= old_dv.push(
                        (lhs@, seq![rhs.deep_view()]),
                    ));
                }
            },
        }
    }

    /// Computes the FIRST sets of all registered nonterminals by iterating
    /// full passes until a pass changes nothing. The result is a fixed point
    /// of `first_step` reached from the all-empty start, so the sets are
    /// exactly the ones the monotone iteration converges to.
    #[allow(non_snake_case)]
    pub fn getFirst(&mut self)
        ensures
            final(self).rules_model() == old(self).rules_model(),
            final(self).follow_model() == old(self).follow_model(),
            final(self).table_model() == old(self).table_model(),
            final(self).start_model() == old(self).start_model(),
            final(self).wf() == old(self).wf(),
            first_computed(final(self).rules_model(), final(self).first_model()),
    {
        let ghost g = self.rules.deep_view();
        // Fresh empty set per production head.
        let mut init: Vec<(String, Vec<String>)> = Vec::new();
        let mut i: usize = 0;
        while i < self.rules.len()
            invariant
                g == self.rules.deep_view(),
                i <= g.len(),
                init.deep_view().len() == i,
                forall|k: int| 0 <= k < i ==> #[trigger] init.deep_view()[k].0 == g[k].0,
                forall|k: int| 0 <= k < i ==> #[trigger] init.deep_view()[k].1 == Seq::<
                    Seq<char>,
                >::empty(),
            decreases g.len() - i,
        {
            let name = self.rules[i].0.clone();
            let fresh: Vec<String> = Vec::new();
            let ghost before = init.deep_view();
            init.push((name, fresh));
            proof {
                assert(init.deep_view() =~~= before.push((g[i as int].0, Seq::<Seq<char>>::empty())));
            }
            i += 1;
        }
        self.first = init;
        proof {
            assert(sets_view(self.first.deep_view()) =~~= first_init(g));
        }

        // The universe every FIRST set lives in: the epsilon marker plus all
        // leading terminals; it bounds the sets and so bounds the iteration.
        let mut alpha: Vec<String> = Vec::new();
        push_absent(&mut alpha, String::new());
        let mut i: usize = 0;
        while i < self.rules.len()
            invariant
                g == self.rules.deep_view(),
                i <= g.len(),
                alpha.deep_view().no_duplicates(),
                alpha.deep_view().to_set().contains(epsilon()),
                forall|k: int, j: int|
                    0 <= k < i && 0 <= j < g[k].1.len() && g[k].1[j].len() > 0 ==> (
                    #[trigger] g[k].1[j][0] matches GSym::Terminal(t) ==> alpha.deep_view().to_set().contains(
                        t,
                    )),
            decreases g.len() - i,
        {
            let prods = &self.rules[i].1;
            let mut j: usize = 0;
            while j < prods.len()
                invariant
                    g == self.rules.deep_view(),
                    i < g.len(),
                    prods.deep_view() == g[i as int].1,
                    j <= g[i as int].1.len(),
                    alpha.deep_view().no_duplicates(),
                    alpha.deep_view().to_set().contains(epsilon()),
                    forall|k: int, l: int|
                        0 <= k < i && 0 <= l < g[k].1.len() && g[k].1[l].len() > 0 ==> (
                        #[trigger] g[k].1[l][0] matches GSym::Terminal(t)
                            ==> alpha.deep_view().to_set().contains(t)),
                    forall|l: int|
                        0 <= l < j && g[i as int].1[l].len() > 0 ==> (
                        #[trigger] g[i as int].1[l][0] matches GSym::Terminal(t)
                            ==> alpha.deep_view().to_set().contains(t)),
                decreases g[i as int].1.len() - j,
            {
                let p = &prods[j];
                if p.len() > 0 {
                    match &p[0] {
                        Symbol::Terminal(t) => {
                            push_absent(&mut alpha, t.clone());
                            proof {
                                assert(g[i as int].1[j as int][0] == GSym::Terminal(t@));
                            }
                        },
                        Symbol::Nonterminal(_) => {
                            proof {
                                assert(g[i as int].1[j as int][0] matches GSym::Nonterminal(_));
                            }
                        },
                    }
                }
                j += 1;
            }
            i += 1;
        }
        proof {
            assert(first_universe_ok(g, alpha.deep_view().to_set()));
        }

        // Iterate passes to the fixed point. Each pass only appends, and all
        // sets stay duplicate-free inside the universe, so the total element
        // count grows strictly while anything changes and is bounded.
        let ghost mut n: nat = 0;
        let mut changed = true;
        while changed
            invariant
                g == self.rules.deep_view(),
                self.follow == old(self).follow,
                self.table == old(self).table,
                self.start_symbol == old(self).start_symbol,
                self.rules == old(self).rules,
                alpha.deep_view().no_duplicates(),
                first_universe_ok(g, alpha.deep_view().to_set()),
                self.first.deep_view().len() == g.len(),
                forall|k: int|
                    0 <= k < g.len() ==> #[trigger] self.first.deep_view()[k].0 == g[k].0,
                forall|k: int|
                    0 <= k < g.len() ==> (#[trigger] self.first.deep_view()[k].1).no_duplicates(),
                forall|k: int|
                    0 <= k < g.len() ==> (#[trigger] self.first.deep_view()[k].1).to_set().subset_of(
                        alpha.deep_view().to_set(),
                    ),
                sets_view(self.first.deep_view()) == first_iter(g, n),
                !changed ==> first_step(g, sets_view(self.first.deep_view())) == sets_view(
                    self.first.deep_view(),
                ),
            decreases
                    size_cap(g.len(), alpha.deep_view().len()) - total_size(self.first.deep_view()),
                    (if changed {
                        1int
                    } else {
                        0int
                    }),
        {
            proof {
                assert forall|k: int| 0 <= k < g.len() implies (#[trigger] self.first.deep_view()[k].1).len()
                    <= alpha.deep_view().len() by {
                    lemma_unique_subset_len(self.first.deep_view()[k].1, alpha.deep_view());
                }
                lemma_total_size_le_cap(self.first.deep_view(), alpha.deep_view().len());
            }
            let ghost cur = self.first.deep_view();
            let (next, ch) = first_pass(&self.rules, &self.first);
            proof {
                assert(sets_view(next.deep_view()) =~= first_step(g, sets_view(cur)));
                assert forall|k: int| 0 <= k < g.len() implies (#[trigger] next.deep_view()[k].1).to_set().subset_of(
                    alpha.deep_view().to_set(),
                ) by {
                    lemma_prods_first_bound(g[k].1, sets_view(cur), alpha.deep_view().to_set());
                }
                if ch {
                    let w = choose|k: int|
                        0 <= k < g.len() && cur[k].1.len() < (#[trigger] next.deep_view()[k].1).len();
                    lemma_total_size_pointwise_lt(cur, next.deep_view(), w);
                    assert forall|k: int| 0 <= k < g.len() implies (#[trigger] next.deep_view()[k].1).len()
                        <= alpha.deep_view().len() by {
                        lemma_unique_subset_len(next.deep_view()[k].1, alpha.deep_view());
                    }
                    lemma_total_size_le_cap(next.deep_view(), alpha.deep_view().len());
                }
            }
            self.first = next;
            changed = ch;
            proof {
                n = n + 1;
            }
        }
    }

    /// Computes the FOLLOW sets: the start symbol's set is seeded with the
    /// end marker, then full passes of the forward and trailing propagation
    /// rules run until nothing changes. The result is a fixed point of
    /// `follow_step` reached from that seeded start, over exactly the
    /// nonterminals the rules can touch.
    #[allow(non_snake_case)]
    pub fn getFollow(&mut self)
        ensures
            final(self).rules_model() == old(self).rules_model(),
            final(self).first_model() == old(self).first_model(),
            final(self).table_model() == old(self).table_model(),
            final(self).start_model() == old(self).start_model(),
            final(self).wf() == old(self).wf(),
            follow_computed(
                final(self).rules_model(),
                final(self).first_model(),
                final(self).start_model(),
                final(self).follow_model(),
            ),
    {
        let ghost g = self.rules.deep_view();
        let ghost f1 = self.first.deep_view();
        let ghost start = self.start_symbol@;

        // Discover, in deterministic order, every nonterminal the FOLLOW
        // rules can touch, seeding the start symbol with the end marker.
        let mut fl: Vec<(String, Vec<String>)> = Vec::new();
        let start_name = self.start_symbol.clone();
        let mut seed: Vec<String> = Vec::new();
        let dollar = new_end_marker();
        seed.push(dollar);
        fl.push((start_name, seed));
        proof {
            assert(keys_of(fl.deep_view()) =~= seq![start]);
            assert(fl.deep_view()[0].1 =~= seq![end_marker()]);
        }
        let mut i: usize = 0;
        while i < self.rules.len()
            invariant
                g == self.rules.deep_view(),
                f1 == self.first.deep_view(),
                i <= g.len(),
                follow_seed_inv(fl.deep_view(), start),
                keys_of(fl.deep_view()) == rules_keys(g, f1, seq![start], i as int),
            decreases g.len() - i,
        {
            let prods = &self.rules[i].1;
            let ghost ks0 = keys_of(fl.deep_view());
            let mut j: usize = 0;
            while j < prods.len()
                invariant
                    g == self.rules.deep_view(),
                    f1 == self.first.deep_view(),
                    i < g.len(),
                    prods.deep_view() == g[i as int].1,
                    j <= g[i as int].1.len(),
                    follow_seed_inv(fl.deep_view(), start),
                    keys_of(fl.deep_view()) == prods_keys(f1, g[i as int].1.take(j as int), ks0),
                decreases g[i as int].1.len() - j,
            {
                let p = &prods[j];
                let ghost pd = g[i as int].1[j as int];
                let ghost ks1 = keys_of(fl.deep_view());
                // forward targets
                let mut k: usize = 1;
                while k < p.len()
                    invariant
                        f1 == self.first.deep_view(),
                        p.deep_view() == pd,
                        1 <= k,
                        p.len() == 0 ==> k == 1,
                        p.len() > 0 ==> k <= p.len(),
                        follow_seed_inv(fl.deep_view(), start),
                        keys_of(fl.deep_view()) == fwd_keys_upto(pd, ks1, k as int - 1),
                    decreases p.len() - k,
                {
                    match &p[k - 1] {
                        Symbol::Nonterminal(x) => {
                            proof {
                                assert(pd[k as int - 1] == GSym::Nonterminal(x@));
                            }
                            let ghost before = fl.deep_view();
                            seed_key(&mut fl, x);
                            proof {
                                lemma_seed_preserves(before, fl.deep_view(), x@, start);
                                assert(fwd_keys_upto(pd, ks1, k as int) == add_key(
                                    fwd_keys_upto(pd, ks1, k as int - 1),
                                    x@,
                                ));
                            }
                        },
                        Symbol::Terminal(_) => {
                            proof {
                                assert(pd[k as int - 1] matches GSym::Terminal(_));
                                assert(fwd_keys_upto(pd, ks1, k as int) == fwd_keys_upto(
                                    pd,
                                    ks1,
                                    k as int - 1,
                                ));
                            }
                        },
                    }
                    k += 1;
                }
                proof {
                    if pd.len() == 0 {
                        assert(fwd_keys(pd, ks1) == ks1);
                        assert(fwd_keys_upto(pd, ks1, 0) == ks1);
                    } else {
                        assert(k == pd.len());
                        assert(fwd_keys(pd, ks1) == fwd_keys_upto(pd, ks1, pd.len() - 1));
                    }
                    assert(keys_of(fl.deep_view()) == fwd_keys(pd, ks1));
                }
                let ghost ks2 = keys_of(fl.deep_view());
                // trailing targets
                let mut k: usize = p.len();
                let mut active = true;
                while active && k > 0
                    invariant
                        f1 == self.first.deep_view(),
                        p.deep_view() == pd,
                        k <= p.len(),
                        follow_seed_inv(fl.deep_view(), start),
                        active ==> trail_keys_from(f1, pd, ks2, pd.len() - 1) == trail_keys_from(
                            f1,
                            pd,
                            keys_of(fl.deep_view()),
                            k as int - 1,
                        ),
                        !active ==> trail_keys_from(f1, pd, ks2, pd.len() - 1) == keys_of(
                            fl.deep_view(),
                        ),
                    decreases k,
                {
                    let idx = k - 1;
                    let ghost ks_here = keys_of(fl.deep_view());
                    match &p[idx] {
                        Symbol::Terminal(_) => {
                            proof {
                                assert(pd[idx as int] matches GSym::Terminal(_));
                                assert(trail_keys_from(f1, pd, ks_here, idx as int) == ks_here);
                            }
                            active = false;
                        },
                        Symbol::Nonterminal(x) => {
                            proof {
                                assert(pd[idx as int] == GSym::Nonterminal(x@));
                            }
                            let ghost before = fl.deep_view();
                            seed_key(&mut fl, x);
                            let nullable = is_nullable(&self.first, x);
                            proof {
                                lemma_seed_preserves(before, fl.deep_view(), x@, start);
                                assert(keys_of(fl.deep_view()) == add_key(ks_here, x@));
                                if nullable {
                                    assert(trail_keys_from(f1, pd, ks_here, idx as int)
                                        == trail_keys_from(
                                        f1,
                                        pd,
                                        keys_of(fl.deep_view()),
                                        idx as int - 1,
                                    ));
                                } else {
                                    assert(trail_keys_from(f1, pd, ks_here, idx as int) == keys_of(
                                        fl.deep_view(),
                                    ));
                                }
                            }
                            if !nullable {
                                active = false;
                            }
                        },
                    }
                    k -= 1;
                }
                proof {
                    if active {
                        assert(trail_keys_from(f1, pd, keys_of(fl.deep_view()), -1) == keys_of(
                            fl.deep_view(),
                        ));
                    }
                    assert(ks2 == fwd_keys(pd, ks1));
                    assert(keys_of(fl.deep_view()) == prod_keys(f1, pd, ks1));
                    assert(g[i as int].1.take(j + 1).drop_last() =~= g[i as int].1.take(j as int));
                    assert(g[i as int].1.take(j + 1).last() == pd);
                }
                j += 1;
            }
            proof {
                assert(g[i as int].1.take(g[i as int].1.len() as int) =~= g[i as int].1);
            }
            i += 1;
        }
        proof {
            assert(keys_of(fl.deep_view()) == follow_keys(g, f1, start));
            let fd = fl.deep_view();
            let ks = keys_of(fd);
            assert forall|ii: int| 0 <= ii < fd.len() implies sets_view(fd)[ii].1 =~= follow_init(
                ks,
                start,
            )[ii].1 by {
                assert(ks[ii] == fd[ii].0);
                if ii == 0 {
                    assert(fd[0].1 == seq![end_marker()]);
                    assert(fd[0].1 =~= Seq::<Seq<char>>::empty() + seq![end_marker()]);
                    Seq::lemma_to_set_insert_commutes(Seq::<Seq<char>>::empty(), end_marker());
                    assert(fd[0].1.to_set() =~= Set::empty().insert(end_marker()));
                } else {
                    assert(fd[ii].0 != fd[0].0);
                    assert(ks[ii] != start);
                    assert(fd[ii].1 == Seq::<Seq<char>>::empty());
                    assert(fd[ii].1.to_set() =~= Set::<Seq<char>>::empty());
                }
            }
            assert(sets_view(fl.deep_view()) =~~= follow_init(keys_of(fl.deep_view()), start));
        }

        // The universe every FOLLOW set lives in: the end marker, every
        // terminal of every production, every recorded FIRST lexeme.
        let mut beta: Vec<String> = Vec::new();
        let dollar = new_end_marker();
        push_absent(&mut beta, dollar);
        let mut i: usize = 0;
        while i < self.rules.len()
            invariant
                g == self.rules.deep_view(),
                i <= g.len(),
                beta.deep_view().no_duplicates(),
                beta.deep_view().to_set().contains(end_marker()),
                forall|a: int, b: int, c: int|
                    0 <= a < i && 0 <= b < g[a].1.len() && 0 <= c < g[a].1[b].len() ==> (
                    #[trigger] g[a].1[b][c] matches GSym::Terminal(t)
                        ==> beta.deep_view().to_set().contains(t)),
            decreases g.len() - i,
        {
            let prods = &self.rules[i].1;
            let mut j: usize = 0;
            while j < prods.len()
                invariant
                    g == self.rules.deep_view(),
                    i < g.len(),
                    prods.deep_view() == g[i as int].1,
                    j <= g[i as int].1.len(),
                    beta.deep_view().no_duplicates(),
                    beta.deep_view().to_set().contains(end_marker()),
                    forall|a: int, b: int, c: int|
                        0 <= a < i && 0 <= b < g[a].1.len() && 0 <= c < g[a].1[b].len() ==> (
                        #[trigger] g[a].1[b][c] matches GSym::Terminal(t)
                            ==> beta.deep_view().to_set().contains(t)),
                    forall|b: int, c: int|
                        0 <= b < j && 0 <= c < g[i as int].1[b].len() ==> (
                        #[trigger] g[i as int].1[b][c] matches GSym::Terminal(t)
                            ==> beta.deep_view().to_set().contains(t)),
                decreases g[i as int].1.len() - j,
            {
                let p = &prods[j];
                let mut k: usize = 0;
                while k < p.len()
                    invariant
                        g == self.rules.deep_view(),
                        i < g.len(),
                        prods.deep_view() == g[i as int].1,
                        j < g[i as int].1.len(),
                        p.deep_view() == g[i as int].1[j as int],
                        k <= p.len(),
                        beta.deep_view().no_duplicates(),
                        beta.deep_view().to_set().contains(end_marker()),
                        forall|a: int, b: int, c: int|
                            0 <= a < i && 0 <= b < g[a].1.len() && 0 <= c < g[a].1[b].len() ==> (
                            #[trigger] g[a].1[b][c] matches GSym::Terminal(t)
                                ==> beta.deep_view().to_set().contains(t)),
                        forall|b: int, c: int|
                            0 <= b < j && 0 <= c < g[i as int].1[b].len() ==> (
                            #[trigger] g[i as int].1[b][c] matches GSym::Terminal(t)
                                ==> beta.deep_view().to_set().contains(t)),
                        forall|c: int|
                            0 <= c < k ==> (#[trigger] g[i as int].1[j as int][c] matches GSym::Terminal(
                                t,
                            ) ==> beta.deep_view().to_set().contains(t)),
                    decreases p.len() - k,
                {
                    match &p[k] {
                        Symbol::Terminal(t) => {
                            push_absent(&mut beta, t.clone());
                            proof {
                                assert(g[i as int].1[j as int][k as int] == GSym::Terminal(t@));
                            }
                        },
                        Symbol::Nonterminal(_) => {
                            proof {
                                assert(g[i as int].1[j as int][k as int] matches GSym::Nonterminal(
                                    _,
                                ));
                            }
                        },
                    }
                    k += 1;
                }
                j += 1;
            }
            i += 1;
        }
        let mut i: usize = 0;
        while i < self.first.len()
            invariant
                f1 == self.first.deep_view(),
                i <= f1.len(),
                beta.deep_view().no_duplicates(),
                beta.deep_view().to_set().contains(end_marker()),
                forall|a: int, b: int, c: int|
                    0 <= a < g.len() && 0 <= b < g[a].1.len() && 0 <= c < g[a].1[b].len() ==> (
                    #[trigger] g[a].1[b][c] matches GSym::Terminal(t)
                        ==> beta.deep_view().to_set().contains(t)),
                forall|a: int, e: Seq<char>|
                    0 <= a < i && #[trigger] f1[a].1.contains(e) ==> beta.deep_view().to_set().contains(
                        e,
                    ),
            decreases f1.len() - i,
        {
            extend_absent(&mut beta, &self.first[i].1);
            i += 1;
        }
        proof {
            assert(follow_universe_ok(g, f1, beta.deep_view().to_set()));
        }

        self.follow = fl;

        // Iterate passes to the fixed point, as for FIRST.
        let ghost ks = keys_of(self.follow.deep_view());
        let ghost mut n: nat = 0;
        let mut changed = true;
        while changed
            invariant
                g == self.rules.deep_view(),
                f1 == self.first.deep_view(),
                start == self.start_symbol@,
                self.first == old(self).first,
                self.table == old(self).table,
                self.start_symbol == old(self).start_symbol,
                self.rules == old(self).rules,
                beta.deep_view().no_duplicates(),
                follow_universe_ok(g, f1, beta.deep_view().to_set()),
                ks == keys_of(self.follow.deep_view()),
                ks == follow_keys(g, f1, start),
                ks.len() > 0,
                ks[0] == start,
                keys_unique(self.follow.deep_view()),
                forall|k: int|
                    0 <= k < self.follow.deep_view().len()
                        ==> (#[trigger] self.follow.deep_view()[k].1).no_duplicates(),
                forall|k: int|
                    0 <= k < self.follow.deep_view().len()
                        ==> (#[trigger] self.follow.deep_view()[k].1).to_set().subset_of(
                        beta.deep_view().to_set(),
                    ),
                sets_view(self.follow.deep_view()) == follow_iter(g, f1, ks, start, n),
                !changed ==> follow_step(g, f1, sets_view(self.follow.deep_view())) == sets_view(
                    self.follow.deep_view(),
                ),
            decreases
                    size_cap(self.follow.deep_view().len(), beta.deep_view().len()) - total_size(
                        self.follow.deep_view(),
                    ),
                    (if changed {
                        1int
                    } else {
                        0int
                    }),
        {
            proof {
                assert forall|k: int|
                    0 <= k < self.follow.deep_view().len() implies (#[trigger] self.follow.deep_view()[k].1).len()
                    <= beta.deep_view().len() by {
                    lemma_unique_subset_len(self.follow.deep_view()[k].1, beta.deep_view());
                }
                lemma_total_size_le_cap(self.follow.deep_view(), beta.deep_view().len());
            }
            let ghost cur = self.follow.deep_view();
            let (next, ch) = follow_pass(&self.rules, &self.first, &self.follow);
            proof {
                lemma_rules_follow_props(
                    g,
                    f1,
                    sets_view(cur),
                    sets_view(cur),
                    g.len() as int,
                    beta.deep_view().to_set(),
                );
                assert forall|k: int|
                    0 <= k < next.deep_view().len() implies (#[trigger] next.deep_view()[k].1).to_set().subset_of(
                    beta.deep_view().to_set(),
                ) by {
                    assert(sets_view(next.deep_view())[k].1 == next.deep_view()[k].1.to_set());
                    assert(sets_view(next.deep_view())[k].1 == follow_step(g, f1, sets_view(cur))[k].1);
                }
                assert(keys_of(next.deep_view()) =~= keys_of(cur));
                if ch {
                    let w = choose|k: int|
                        0 <= k < cur.len() && cur[k].1.len() < (#[trigger] next.deep_view()[k].1).len();
                    lemma_total_size_pointwise_lt(cur, next.deep_view(), w);
                    assert forall|k: int|
                        0 <= k < next.deep_view().len() implies (#[trigger] next.deep_view()[k].1).len()
                        <= beta.deep_view().len() by {
                        lemma_unique_subset_len(next.deep_view()[k].1, beta.deep_view());
                    }
                    lemma_total_size_le_cap(next.deep_view(), beta.deep_view().len());
                }
            }
            self.follow = next;
            changed = ch;
            proof {
                n = n + 1;
            }
        }
        proof {
            lemma_follow_iter_start(g, f1, ks, start, n, beta.deep_view().to_set());
            assert(self.follow.deep_view()[0].0 == start);
            assert(self.follow.deep_view()[0].1.to_set().contains(end_marker()));
        }
    }

    /// Builds the prediction table from the registered grammar and the
    /// stored FIRST and FOLLOW sets. A later registration of a cell
    /// silently replaces an earlier one, as the scan dictates; the returned
    /// flag reports whether any such overwrite happened, so a caller may
    /// treat a conflicting (non-LL(1)) grammar as an error.
    #[allow(non_snake_case)]
    pub fn getTable(&mut self) -> (conflicted: bool)
        ensures
            final(self).rules_model() == old(self).rules_model(),
            final(self).first_model() == old(self).first_model(),
            final(self).follow_model() == old(self).follow_model(),
            final(self).start_model() == old(self).start_model(),
            final(self).wf() == old(self).wf(),
            final(self).table_model() == table_build(
                old(self).rules_model(),
                old(self).first_model(),
                old(self).follow_model(),
            ).0,
            conflicted == table_build(
                old(self).rules_model(),
                old(self).first_model(),
                old(self).follow_model(),
            ).1,
            keys_unique(final(self).table_model()),
    {
        let ghost g = self.rules.deep_view();
        let ghost f1 = self.first.deep_view();
        let ghost f2 = self.follow.deep_view();
        let mut table: Vec<((String, String), (String, Vec<Symbol>))> = Vec::new();
        let mut confl = false;
        proof {
            assert(table.deep_view() =~= Seq::<
                ((Seq<char>, Seq<char>), (Seq<char>, Seq<GSym>)),
            >::empty());
        }
        let empty_lex: Vec<String> = Vec::new();
        let mut i: usize = 0;
        while i < self.rules.len()
            invariant
                g == self.rules.deep_view(),
                f1 == self.first.deep_view(),
                f2 == self.follow.deep_view(),
                empty_lex.deep_view() == Seq::<Seq<char>>::empty(),
                i <= g.len(),
                keys_unique(table.deep_view()),
                table.deep_view() == tbl_rules(g, f1, f2, (Seq::empty(), false), i as int).0,
                confl == tbl_rules(g, f1, f2, (Seq::empty(), false), i as int).1,
            decreases g.len() - i,
        {
            let prods = &self.rules[i].1;
            let head = &self.rules[i].0;
            let ghost an = g[i as int].0;
            let ghost st_i = (table.deep_view(), confl);
            proof {
                assert(head@ == an);
            }
            let mut j: usize = 0;
            while j < prods.len()
                invariant
                    g == self.rules.deep_view(),
                    f1 == self.first.deep_view(),
                    f2 == self.follow.deep_view(),
                    empty_lex.deep_view() == Seq::<Seq<char>>::empty(),
                    i < g.len(),
                    prods.deep_view() == g[i as int].1,
                    head@ == an,
                    an == g[i as int].0,
                    j <= g[i as int].1.len(),
                    keys_unique(table.deep_view()),
                    (table.deep_view(), confl) == tbl_prods(
                        f1,
                        f2,
                        an,
                        g[i as int].1.take(j as int),
                        st_i,
                    ),
                decreases g[i as int].1.len() - j,
            {
                let p = &prods[j];
                let ghost pd = g[i as int].1[j as int];
                let ghost st_p = (table.deep_view(), confl);
                let ghost val = (an, pd);
                let mut pos: usize = 0;
                let mut active = true;
                while active && pos < p.len()
                    invariant
                        g == self.rules.deep_view(),
                        f1 == self.first.deep_view(),
                        f2 == self.follow.deep_view(),
                        empty_lex.deep_view() == Seq::<Seq<char>>::empty(),
                        i < g.len(),
                        head@ == an,
                        an == g[i as int].0,
                        prods.deep_view() == g[i as int].1,
                        j < g[i as int].1.len(),
                        p.deep_view() == pd,
                        pd == g[i as int].1[j as int],
                        pos <= pd.len(),
                        val == (an, pd),
                        keys_unique(table.deep_view()),
                        active ==> tbl_scan(f1, f2, an, pd, st_p, 0) == tbl_scan(
                            f1,
                            f2,
                            an,
                            pd,
                            (table.deep_view(), confl),
                            pos as int,
                        ),
                        !active ==> tbl_scan(f1, f2, an, pd, st_p, 0) == (
                            table.deep_view(),
                            confl,
                        ),
                    decreases pd.len() - pos,
                {
                    let ghost st_here = (table.deep_view(), confl);
                    match &p[pos] {
                        Symbol::Terminal(tx) => {
                            proof {
                                assert(pd[pos as int] == GSym::Terminal(tx@));
                            }
                            let was = tbl_insert(&mut table, head, tx, head, &prods[j]);
                            confl = confl || was;
                            proof {
                                assert(prods[j as int].deep_view() == pd);
                                assert((table.deep_view(), confl) == tbl_reg(
                                    st_here,
                                    an,
                                    tx@,
                                    val,
                                ));
                                assert(tbl_scan(f1, f2, an, pd, st_here, pos as int) == tbl_reg(
                                    st_here,
                                    an,
                                    tx@,
                                    val,
                                ));
                            }
                            active = false;
                        },
                        Symbol::Nonterminal(b) => {
                            proof {
                                assert(pd[pos as int] == GSym::Nonterminal(b@));
                            }
                            let lexs: &Vec<String> = match find_key(&self.first, b) {
                                Some(kk) => {
                                    proof {
                                        assert forall|l: int| 0 <= l < kk implies f1[l].0
                                            != b@ by {
                                            assert(f1[l].0 == self.first@[l].0@);
                                        }
                                        assert(f1[kk as int].0 == b@);
                                        lemma_assoc_get_at(f1, b@, kk as int);
                                    }
                                    &self.first[kk].1
                                },
                                None => {
                                    proof {
                                        assert forall|l: int| 0 <= l < f1.len() implies f1[l].0
                                            != b@ by {
                                            assert(f1[l].0 == self.first@[l].0@);
                                        }
                                        lemma_assoc_get_none(f1, b@);
                                    }
                                    &empty_lex
                                },
                            };
                            proof {
                                assert(lexs.deep_view() == lexemes_of(f1, b@));
                            }
                            let eps = String::new();
                            let mut k: usize = 0;
                            while k < lexs.len()
                                invariant
                                    g == self.rules.deep_view(),
                                    f1 == self.first.deep_view(),
                                    eps@ == epsilon(),
                                    head@ == an,
                                    val == (an, pd),
                                    p.deep_view() == pd,
                                    pos < pd.len(),
                                    pd[pos as int] == GSym::Nonterminal(b@),
                                    lexs.deep_view() == lexemes_of(f1, b@),
                                    prods.deep_view() == g[i as int].1,
                                    i < g.len(),
                                    j < g[i as int].1.len(),
                                    pd == g[i as int].1[j as int],
                                    k <= lexs.deep_view().len(),
                                    keys_unique(table.deep_view()),
                                    (table.deep_view(), confl) == tbl_reg_first(
                                        st_here,
                                        an,
                                        lexs.deep_view().take(k as int),
                                        val,
                                    ),
                                decreases lexs.deep_view().len() - k,
                            {
                                let lx = &lexs[k];
                                proof {
                                    assert(lx@ == lexs.deep_view()[k as int]);
                                    assert(lexs.deep_view().take(k + 1).drop_last()
                                        =~= lexs.deep_view().take(k as int));
                                    assert(lexs.deep_view().take(k + 1).last()
                                        == lexs.deep_view()[k as int]);
                                }
                                if !(*lx == eps) {
                                    let was = tbl_insert(&mut table, head, lx, head, &prods[j]);
                                    confl = confl || was;
                                    proof {
                                        assert(prods[j as int].deep_view() == pd);
                                        assert(lexs.deep_view()[k as int] != epsilon());
                                    }
                                } else {
                                    proof {
                                        assert(lexs.deep_view()[k as int] == epsilon());
                                    }
                                }
                                k += 1;
                            }
                            proof {
                                assert(lexs.deep_view().take(lexs.deep_view().len() as int)
                                    =~= lexs.deep_view());
                                assert((table.deep_view(), confl) == tbl_reg_first(
                                    st_here,
                                    an,
                                    lexemes_of(f1, b@),
                                    val,
                                ));
                            }
                            if !is_nullable(&self.first, b) {
                                proof {
                                    assert(!nullable_sym(f1, pd[pos as int]));
                                    assert(tbl_scan(f1, f2, an, pd, st_here, pos as int)
                                        == tbl_reg_first(st_here, an, lexemes_of(f1, b@), val));
                                }
                                active = false;
                            } else {
                                proof {
                                    assert(nullable_sym(f1, pd[pos as int]));
                                    assert(tbl_scan(f1, f2, an, pd, st_here, pos as int)
                                        == tbl_scan(
                                        f1,
                                        f2,
                                        an,
                                        pd,
                                        (table.deep_view(), confl),
                                        pos as int + 1,
                                    ));
                                }
                            }
                        },
                    }
                    pos += 1;
                }
                if active {
                    // the scan left the production: the head's FOLLOW set
                    // decides
                    let ghost st_c = (table.deep_view(), confl);
                    let flist: &Vec<String> = match find_key(&self.follow, head) {
                        Some(kk) => {
                            proof {
                                assert forall|l: int| 0 <= l < kk implies f2[l].0 != an by {
                                    assert(f2[l].0 == self.follow@[l].0@);
                                }
                                assert(f2[kk as int].0 == an);
                                lemma_assoc_get_at(f2, an, kk as int);
                            }
                            &self.follow[kk].1
                        },
                        None => {
                            proof {
                                assert forall|l: int| 0 <= l < f2.len() implies f2[l].0 != an by {
                                    assert(f2[l].0 == self.follow@[l].0@);
                                }
                                lemma_assoc_get_none(f2, an);
                            }
                            &empty_lex
                        },
                    };
                    proof {
                        assert(flist.deep_view() == lexemes_of(f2, an));
                    }
                    let mut k: usize = 0;
                    while k < flist.len()
                        invariant
                            g == self.rules.deep_view(),
                            f2 == self.follow.deep_view(),
                            head@ == an,
                            val == (an, pd),
                            flist.deep_view() == lexemes_of(f2, an),
                            prods.deep_view() == g[i as int].1,
                            i < g.len(),
                            j < g[i as int].1.len(),
                            pd == g[i as int].1[j as int],
                            k <= flist.deep_view().len(),
                            keys_unique(table.deep_view()),
                            (table.deep_view(), confl) == tbl_reg_follow(
                                st_c,
                                an,
                                flist.deep_view().take(k as int),
                                val,
                            ),
                        decreases flist.deep_view().len() - k,
                    {
                        let lx = &flist[k];
                        proof {
                            assert(lx@ == flist.deep_view()[k as int]);
                            assert(flist.deep_view().take(k + 1).drop_last()
                                =~= flist.deep_view().take(k as int));
                            assert(flist.deep_view().take(k + 1).last() == flist.deep_view()[
                                k as int]);
                        }
                        let was = tbl_insert(&mut table, head, lx, head, &prods[j]);
                        confl = confl || was;
                        proof {
                            assert(prods[j as int].deep_view() == pd);
                        }
                        k += 1;
                    }
                    proof {
                        assert(flist.deep_view().take(flist.deep_view().len() as int)
                            =~= flist.deep_view());
                        assert((table.deep_view(), confl) == tbl_reg_follow(
                            st_c,
                            an,
                            lexemes_of(f2, an),
                            val,
                        ));
                        if pd.len() == 0 {
                            assert(tbl_scan(f1, f2, an, pd, st_c, 0) == tbl_reg_follow(
                                st_c,
                                an,
                                lexemes_of(f2, an),
                                val,
                            ));
                        } else {
                            assert(pos == pd.len());
                            assert(tbl_scan(f1, f2, an, pd, st_c, pos as int) == tbl_reg_follow(
                                st_c,
                                an,
                                lexemes_of(f2, an),
                                val,
                            ));
                        }
                    }
                }
                proof {
                    assert((table.deep_view(), confl) == tbl_scan(f1, f2, an, pd, st_p, 0));
                    assert(g[i as int].1.take(j + 1).drop_last() =~= g[i as int].1.take(j as int));
                    assert(g[i as int].1.take(j + 1).last() == pd);
                }
                j += 1;
            }
            proof {
                assert(g[i as int].1.take(g[i as int].1.len() as int) =~= g[i as int].1);
            }
            i += 1;
        }
        self.table = table;
        confl
    }

    /// Runs the three analysis engines, then drives the table-based parse
    /// over `input`: a stream of already-normalized tokens whose last
    /// element is the end marker. Gives up with `ParseError::StepLimit`
    /// after `limit` transitions. The result is exactly the outcome of the
    /// `drive` machine on the freshly built table.
    pub fn parse_with_limit(&mut self, input: &Vec<String>, limit: usize) -> (r: Result<
        Vec<TraceRecord>,
        ParseError,
    >)
        requires
            old(self).wf(),
            input@.len() > 0,
            input.deep_view()[input@.len() - 1] == end_marker(),
        ensures
            final(self).rules_model() == old(self).rules_model(),
            final(self).start_model() == old(self).start_model(),
            final(self).wf() == old(self).wf(),
            first_computed(final(self).rules_model(), final(self).first_model()),
            follow_computed(
                final(self).rules_model(),
                final(self).first_model(),
                final(self).start_model(),
                final(self).follow_model(),
            ),
            final(self).table_model() == table_build(
                final(self).rules_model(),
                final(self).first_model(),
                final(self).follow_model(),
            ).0,
            keys_unique(final(self).table_model()),
            result_matches(
                drive(
                    final(self).table_model(),
                    seq![
                        GSym::Terminal(end_marker()),
                        GSym::Nonterminal(final(self).start_model()),
                    ],
                    input.deep_view(),
                    0,
                    limit as nat,
                ),
                r,
            ),
    {
        self.getFirst();
        self.getFollow();
        let _conflicted = self.getTable();

        let ghost tm = self.table.deep_view();
        let ghost inp = input.deep_view();
        let dollar = new_end_marker();
        let start_name = self.start_symbol.clone();
        let mut stack: Vec<Symbol> = Vec::new();
        stack.push(Symbol::Terminal(dollar.clone()));
        stack.push(Symbol::Nonterminal(start_name));
        proof {
            assert(stack.deep_view() =~= seq![
                GSym::Terminal(end_marker()),
                GSym::Nonterminal(self.start_symbol@),
            ]);
        }
        let ghost orig = drive(tm, stack.deep_view(), inp, 0, limit as nat);
        let mut pos: usize = 0;
        let mut fuel: usize = limit;
        let mut trace: Vec<TraceRecord> = Vec::new();
        proof {
            match orig {
                DriveOutcome::Accepted { trace: tr0, .. } => {
                    assert(Seq::<TraceRec>::empty() + tr0 =~= tr0);
                    assert(with_prefix(trace.deep_view(), orig) == orig);
                },
                _ => {
                    assert(with_prefix(trace.deep_view(), orig) == orig);
                },
            }
        }
        loop
            invariant
                tm == self.table.deep_view(),
                inp == input.deep_view(),
                inp.len() > 0,
                inp[inp.len() - 1] == end_marker(),
                dollar@ == end_marker(),
                self.rules_model() == old(self).rules_model(),
                self.start_model() == old(self).start_model(),
                self.wf() == old(self).wf(),
                first_computed(self.rules_model(), self.first_model()),
                follow_computed(
                    self.rules_model(),
                    self.first_model(),
                    self.start_model(),
                    self.follow_model(),
                ),
                self.table_model() == table_build(
                    self.rules_model(),
                    self.first_model(),
                    self.follow_model(),
                ).0,
                keys_unique(self.table_model()),
                tm == self.table_model(),
                orig == drive(
                    tm,
                    seq![
                        GSym::Terminal(end_marker()),
                        GSym::Nonterminal(self.start_model()),
                    ],
                    inp,
                    0,
                    limit as nat,
                ),
                stack@.len() > 0,
                stack.deep_view()[0] == GSym::Terminal(end_marker()),
                pos < inp.len(),
                fuel <= limit,
                orig == with_prefix(
                    trace.deep_view(),
                    drive(tm, stack.deep_view(), inp, pos as nat, fuel as nat),
                ),
            decreases fuel,
        {
            let ghost sd = stack.deep_view();
            let ghost pre = trace.deep_view();
            let ghost cur = drive(tm, sd, inp, pos as nat, fuel as nat);
            if fuel == 0 {
                proof {
                    assert(cur is OutOfSteps);
                }
                return Err(ParseError::StepLimit);
            }
            let x = stack[stack.len() - 1].clone();
            proof {
                assert(x@ == sd.last());
            }
            let a = &input[pos];
            proof {
                assert(a@ == inp[pos as int]);
            }
            match x {
                Symbol::Terminal(tx) => {
                    if tx == *a {
                        if tx == dollar {
                            proof {
                                assert(cur == (DriveOutcome::Accepted {
                                    consumed: (pos + 1) as nat,
                                    left: sd.drop_last(),
                                    trace: Seq::<TraceRec>::empty(),
                                }));
                                assert(pre + Seq::<TraceRec>::empty() =~= pre);
                                assert(orig matches DriveOutcome::Accepted { trace: tr, .. }
                                    && tr == trace.deep_view());
                            }
                            return Ok(trace);
                        } else {
                            let rec = TraceRecord {
                                stack: clone_symbols(&stack),
                                remaining: rest_tokens(input, pos),
                                expansion: None,
                            };
                            let ghost rd = rec.deep_view();
                            proof {
                                assert(rd == (TraceRec {
                                    stack: sd,
                                    remaining: inp.skip(pos as int),
                                    expansion: None,
                                }));
                            }
                            trace.push(rec);
                            let _ = stack.pop();
                            proof {
                                assert(stack.deep_view() =~= sd.drop_last());
                                assert(tx@ != end_marker());
                                assert(sd.last() == GSym::Terminal(tx@));
                                assert(sd.len() >= 2) by {
                                    if sd.len() == 1 {
                                        assert(sd.last() == sd[0]);
                                    }
                                }
                                assert(stack.deep_view()[0] == sd[0]);
                                assert(inp[pos as int] != end_marker());
                                assert(pos != inp.len() - 1);
                                assert(trace.deep_view() =~= pre.push(rd));
                                let nxt = drive(tm, sd.drop_last(), inp, (pos + 1) as nat, (
                                fuel - 1) as nat);
                                match nxt {
                                    DriveOutcome::Accepted { trace: tr2, .. } => {
                                        assert((pre + seq![rd]) + tr2 =~= pre + (seq![rd] + tr2));
                                        assert(pre.push(rd) =~= pre + seq![rd]);
                                    },
                                    _ => {},
                                }
                                assert(orig == with_prefix(
                                    trace.deep_view(),
                                    drive(tm, stack.deep_view(), inp, (pos + 1) as nat, (fuel
                                        - 1) as nat),
                                ));
                            }
                            proof {
                                assert(pos < input.len());
                            }
                            pos += 1;
                            fuel -= 1;
                        }
                    } else {
                        proof {
                            assert(cur == (DriveOutcome::UnexpectedTerminal {
                                expected: tx@,
                                found: a@,
                                at: pos as nat,
                            }));
                        }
                        return Err(ParseError::UnexpectedTerminal {
                            expected: tx,
                            found: a.clone(),
                            at: pos,
                        });
                    }
                },
                Symbol::Nonterminal(nx) => {
                    match tbl_find(&self.table, &nx, a) {
                        Some(ci) => {
                            proof {
                                lemma_assoc_get_at(tm, (nx@, a@), ci as int);
                            }
                            let entry = &self.table[ci].1;
                            let ghost vd = tm[ci as int].1;
                            proof {
                                assert(entry.0@ == vd.0);
                                assert(entry.1.deep_view() == vd.1);
                            }
                            let rec = TraceRecord {
                                stack: clone_symbols(&stack),
                                remaining: rest_tokens(input, pos),
                                expansion: Some((entry.0.clone(), clone_symbols(&entry.1))),
                            };
                            let ghost rd = rec.deep_view();
                            proof {
                                assert(rd == (TraceRec {
                                    stack: sd,
                                    remaining: inp.skip(pos as int),
                                    expansion: Some(vd),
                                }));
                            }
                            trace.push(rec);
                            let _ = stack.pop();
                            let ghost base = stack.deep_view();
                            proof {
                                assert(sd.last() == GSym::Nonterminal(nx@));
                                assert(sd.len() >= 2) by {
                                    if sd.len() == 1 {
                                        assert(sd.last() == sd[0]);
                                    }
                                }
                                assert(base =~= sd.drop_last());
                                assert(base[0] == sd[0]);
                            }
                            let prod = &self.table[ci].1.1;
                            let mut q: usize = prod.len();
                            while q > 0
                                invariant
                                    prod.deep_view() == vd.1,
                                    q <= vd.1.len(),
                                    stack.deep_view() =~= base + vd.1.skip(q as int).reverse(),
                                decreases q,
                            {
                                let ghost sb = stack.deep_view();
                                let s = prod[q - 1].clone();
                                let ghost s_d = s@;
                                stack.push(s);
                                proof {
                                    assert(s_d == vd.1[q - 1]);
                                    assert(stack.deep_view() =~= sb.push(s_d));
                                    assert(stack.deep_view() =~= base + vd.1.skip(
                                        q as int - 1,
                                    ).reverse());
                                }
                                q -= 1;
                            }
                            proof {
                                assert(vd.1.skip(0) =~= vd.1);
                                assert(stack.deep_view() =~= base + vd.1.reverse());
                                assert(stack.deep_view().len() > 0);
                                assert(stack.deep_view()[0] == base[0]);
                                assert(trace.deep_view() =~= pre.push(rd));
                                let nxt = drive(
                                    tm,
                                    sd.drop_last() + vd.1.reverse(),
                                    inp,
                                    pos as nat,
                                    (fuel - 1) as nat,
                                );
                                match nxt {
                                    DriveOutcome::Accepted { trace: tr2, .. } => {
                                        assert((pre + seq![rd]) + tr2 =~= pre + (seq![rd] + tr2));
                                        assert(pre.push(rd) =~= pre + seq![rd]);
                                    },
                                    _ => {},
                                }
                                assert(stack.deep_view() =~= sd.drop_last() + vd.1.reverse());
                                assert(orig == with_prefix(
                                    trace.deep_view(),
                                    drive(tm, stack.deep_view(), inp, pos as nat, (fuel
                                        - 1) as nat),
                                ));
                            }
                            fuel -= 1;
                        },
                        None => {
                            proof {
                                lemma_assoc_get_none(tm, (nx@, a@));
                                assert(cur == (DriveOutcome::NoProduction {
                                    nonterminal: nx@,
                                    lookahead: a@,
                                    at: pos as nat,
                                }));
                            }
                            return Err(ParseError::NoProduction {
                                nonterminal: nx,
                                lookahead: a.clone(),
                                at: pos,
                            });
                        },
                    }
                },
            }
        }
    }

    /// Runs the analysis engines and parses `input`, with a transition
    /// budget that no terminating parse can realistically reach.
    pub fn parse(&mut self, input: &Vec<String>) -> (r: Result<Vec<TraceRecord>, ParseError>)
        requires
            old(self).wf(),
            input@.len() > 0,
            input.deep_view()[input@.len() - 1] == end_marker(),
        ensures
            final(self).rules_model() == old(self).rules_model(),
            final(self).start_model() == old(self).start_model(),
            final(self).wf() == old(self).wf(),
            first_computed(final(self).rules_model(), final(self).first_model()),
            follow_computed(
                final(self).rules_model(),
                final(self).first_model(),
                final(self).start_model(),
                final(self).follow_model(),
            ),
            final(self).table_model() == table_build(
                final(self).rules_model(),
                final(self).first_model(),
                final(self).follow_model(),
            ).0,
            keys_unique(final(self).table_model()),
            result_matches(
                drive(
                    final(self).table_model(),
                    seq![
                        GSym::Terminal(end_marker()),
                        GSym::Nonterminal(final(self).start_model()),
                    ],
                    input.deep_view(),
                    0,
                    usize::MAX as nat,
                ),
                r,
            ),
    {
        self.parse_with_limit(input, usize::MAX)
    }

    /// The registered grammar: per nonterminal, its alternatives in
    /// registration order.
    pub fn rules(&self) -> (r: &Vec<(String, Vec<Vec<Symbol>>)>)
        ensures
            r.deep_view() == self.rules_model(),
    {
        &self.rules
    }

    /// The stored FIRST sets, one duplicate-free lexeme list per production
    /// head; the empty lexeme is the epsilon marker.
    pub fn first_sets(&self) -> (r: &Vec<(String, Vec<String>)>)
        ensures
            r.deep_view() == self.first_model(),
    {
        &self.first
    }

    /// The stored FOLLOW sets, one duplicate-free lexeme list per touched
    /// nonterminal.
    pub fn follow_sets(&self) -> (r: &Vec<(String, Vec<String>)>)
        ensures
            r.deep_view() == self.follow_model(),
    {
        &self.follow
    }

    /// The prediction table cells: ((nonterminal, lookahead), (owner,
    /// production)).
    pub fn table_cells(&self) -> (r: &Vec<((String, String), (String, Vec<Symbol>))>)
        ensures
            r.deep_view() == self.table_model(),
    {
        &self.table
    }

    /// The designated start symbol's name.
    pub fn start_symbol(&self) -> (r: &String)
        ensures
            r@ == self.start_model(),
    {
        &self.start_symbol
    }
}

/// Bookkeeping that holds while FOLLOW entries are being discovered: the
/// start symbol stands first with the end marker seeded, every other
/// discovered nonterminal starts empty, and no key repeats.
spec fn follow_seed_inv(fm: Seq<(Seq<char>, Seq<Seq<char>>)>, start: Seq<char>) -> bool {
    &&& fm.len() > 0
    &&& fm[0].0 == start
    &&& fm[0].1 == seq![end_marker()]
    &&& forall|i: int| 1 <= i < fm.len() ==> #[trigger] fm[i].1 == Seq::<Seq<char>>::empty()
    &&& keys_unique(fm)
    &&& forall|i: int| 0 <= i < fm.len() ==> (#[trigger] fm[i].1).no_duplicates()
}

/// A fresh copy of the end-of-input lexeme.
fn new_end_marker() -> (r: String)
    ensures
        r@ == end_marker(),
{
    let r = "$".to_string();
    proof {
        reveal_strlit("$");
        assert(r@ =~= end_marker());
    }
    r
}

/// Records nonterminal `x` as touched, creating an empty entry unless one
/// exists.
fn seed_key(fl: &mut Vec<(String, Vec<String>)>, x: &String)
    ensures
        ({
            let o = old(fl).deep_view();
            let nw = final(fl).deep_view();
            &&& keys_of(nw) == add_key(keys_of(o), x@)
            &&& o.len() <= nw.len()
            &&& forall|i: int| 0 <= i < o.len() ==> #[trigger] nw[i] == o[i]
            &&& forall|i: int|
                o.len() <= i < nw.len() ==> #[trigger] nw[i] == (x@, Seq::<Seq<char>>::empty())
        }),
{
    let ghost o = fl.deep_view();
    match find_key(fl, x) {
        Some(k) => {
            proof {
                assert(keys_of(o)[k as int] == x@);
                assert(keys_of(o).contains(x@));
                assert(keys_of(fl.deep_view()) =~= add_key(keys_of(o), x@));
            }
        },
        None => {
            let fresh: Vec<String> = Vec::new();
            fl.push((x.clone(), fresh));
            proof {
                assert forall|i: int| 0 <= i < keys_of(o).len() implies keys_of(o)[i] != x@ by {
                    assert(o[i].0 == old(fl)@[i].0@);
                }
                assert(!keys_of(o).contains(x@));
                assert(fl.deep_view()[o.len() as int] =~~= (x@, Seq::<Seq<char>>::empty()));
                assert(keys_of(fl.deep_view()) =~= add_key(keys_of(o), x@));
            }
        },
    }
}

/// Seeding one key keeps the discovery bookkeeping intact.
proof fn lemma_seed_preserves(
    o: Seq<(Seq<char>, Seq<Seq<char>>)>,
    nw: Seq<(Seq<char>, Seq<Seq<char>>)>,
    x: Seq<char>,
    start: Seq<char>,
)
    requires
        follow_seed_inv(o, start),
        keys_of(nw) == add_key(keys_of(o), x),
        o.len() <= nw.len(),
        forall|i: int| 0 <= i < o.len() ==> #[trigger] nw[i] == o[i],
        forall|i: int|
            o.len() <= i < nw.len() ==> #[trigger] nw[i] == (x, Seq::<Seq<char>>::empty()),
    ensures
        follow_seed_inv(nw, start),
{
    assert(keys_of(nw).len() == nw.len());
    assert(keys_of(o).len() == o.len());
    if keys_of(o).contains(x) {
        assert(nw.len() == o.len());
        assert(nw =~= o);
    } else {
        assert(keys_of(nw) =~= keys_of(o).push(x));
        assert(nw.len() == o.len() + 1);
        assert forall|i: int, j: int| 0 <= i < j < nw.len() implies nw[i].0 != nw[j].0 by {
            if j == nw.len() - 1 {
                assert(nw[j].0 == x);
                assert(nw[i].0 == o[i].0);
                assert(keys_of(o)[i] == o[i].0);
                assert(!keys_of(o).contains(x));
            }
        }
    }
}

/// Whether the recorded FIRST set of the nonterminal named `name` holds
/// the epsilon marker.
fn is_nullable(first: &Vec<(String, Vec<String>)>, name: &String) -> (r: bool)
    ensures
        r == nullable_sym(first.deep_view(), GSym::Nonterminal(name@)),
{
    match find_key(first, name) {
        Some(k) => {
            proof {
                assert forall|l: int| 0 <= l < k implies first.deep_view()[l].0 != name@ by {
                    assert(first.deep_view()[l].0 == first@[l].0@);
                }
                assert(first.deep_view()[k as int].0 == name@);
                lemma_assoc_get_at(first.deep_view(), name@, k as int);
            }
            let eps = String::new();
            contains_str(&first[k].1, &eps)
        },
        None => {
            proof {
                assert forall|l: int|
                    0 <= l < first.deep_view().len() implies first.deep_view()[l].0 != name@ by {
                    assert(first.deep_view()[l].0 == first@[l].0@);
                }
                lemma_assoc_get_none(first.deep_view(), name@);
            }
            false
        },
    }
}

/// A single-element lexeme list.
fn one_lexeme(t: &String) -> (r: Vec<String>)
    ensures
        r.deep_view().to_set() == Set::<Seq<char>>::empty().insert(t@),
        r.deep_view().no_duplicates(),
{
    let mut r: Vec<String> = Vec::new();
    r.push(t.clone());
    proof {
        assert(r.deep_view() =~= Seq::<Seq<char>>::empty() + seq![t@]);
        Seq::lemma_to_set_insert_commutes(Seq::<Seq<char>>::empty(), t@);
        assert(Seq::<Seq<char>>::empty().to_set() =~= Set::<Seq<char>>::empty());
        assert(r.deep_view().to_set() =~= Set::<Seq<char>>::empty().insert(t@));
    }
    r
}

/// The elements of `src` with the epsilon marker left out.
fn non_epsilon_elems(src: &Vec<String>) -> (r: Vec<String>)
    ensures
        r.deep_view().to_set() == src.deep_view().to_set().remove(epsilon()),
        r.deep_view().no_duplicates(),
{
    let mut r: Vec<String> = Vec::new();
    let mut i: usize = 0;
    while i < src.len()
        invariant
            i <= src@.len(),
            r.deep_view().no_duplicates(),
            r.deep_view().to_set() =~= src.deep_view().take(i as int).to_set().remove(epsilon()),
        decreases src@.len() - i,
    {
        let eps = String::new();
        let cur = &src[i];
        proof {
            assert(cur@ == src.deep_view()[i as int]);
            assert(src.deep_view().take(i + 1) =~= src.deep_view().take(i as int) + seq![
                src.deep_view()[i as int],
            ]);
            Seq::lemma_to_set_insert_commutes(
                src.deep_view().take(i as int),
                src.deep_view()[i as int],
            );
        }
        if !(*cur == eps) {
            push_absent(&mut r, cur.clone());
            proof {
                assert(r.deep_view().to_set() =~= src.deep_view().take(i + 1).to_set().remove(
                    epsilon(),
                ));
            }
        } else {
            proof {
                assert(cur@ == epsilon());
                assert(r.deep_view().to_set() =~= src.deep_view().take(i + 1).to_set().remove(
                    epsilon(),
                ));
            }
        }
        i += 1;
    }
    proof {
        assert(src.deep_view().take(src@.len() as int) =~= src.deep_view());
    }
    r
}

/// The lexemes a successor symbol contributes: itself for a terminal, its
/// recorded FIRST set without the epsilon marker for a nonterminal.
fn succ_elems(first: &Vec<(String, Vec<String>)>, s: &Symbol) -> (r: Vec<String>)
    ensures
        r.deep_view().to_set() == succ_terminals(first.deep_view(), s@),
{
    match s {
        Symbol::Terminal(t) => one_lexeme(t),
        Symbol::Nonterminal(b) => match find_key(first, b) {
            Some(k) => {
                proof {
                    assert forall|l: int| 0 <= l < k implies first.deep_view()[l].0 != b@ by {
                        assert(first.deep_view()[l].0 == first@[l].0@);
                    }
                    assert(first.deep_view()[k as int].0 == b@);
                    lemma_assoc_get_at(first.deep_view(), b@, k as int);
                }
                non_epsilon_elems(&first[k].1)
            },
            None => {
                proof {
                    assert forall|l: int|
                        0 <= l < first.deep_view().len() implies first.deep_view()[l].0 != b@ by {
                        assert(first.deep_view()[l].0 == first@[l].0@);
                    }
                    lemma_assoc_get_none(first.deep_view(), b@);
                }
                let r: Vec<String> = Vec::new();
                proof {
                    assert(r.deep_view().to_set() =~= Set::<Seq<char>>::empty());
                }
                r
            },
        },
    }
}

/// Grows the set stored under the entry named `x` by the given lexemes; a
/// name with no entry changes nothing. Reports whether the entry grew.
fn merge_into(st: &mut Vec<(String, Vec<String>)>, x: &String, add: &Vec<String>) -> (grew: bool)
    requires
        keys_unique(old(st).deep_view()),
        forall|i: int|
            0 <= i < old(st).deep_view().len() ==> (#[trigger] old(st).deep_view()[i].1).no_duplicates(),
    ensures
        sets_view(final(st).deep_view()) == upd_set(
            sets_view(old(st).deep_view()),
            x@,
            add.deep_view().to_set(),
        ),
        final(st).deep_view().len() == old(st).deep_view().len(),
        forall|i: int|
            0 <= i < old(st).deep_view().len() ==> #[trigger] final(st).deep_view()[i].0 == old(
                st,
            ).deep_view()[i].0,
        forall|i: int|
            0 <= i < old(st).deep_view().len()
                ==> (#[trigger] final(st).deep_view()[i].1).no_duplicates(),
        forall|i: int|
            0 <= i < old(st).deep_view().len() ==> old(st).deep_view()[i].1.len() <= (
            #[trigger] final(st).deep_view()[i].1).len(),
        !grew ==> final(st).deep_view() == old(st).deep_view(),
        grew ==> exists|i: int|
            0 <= i < old(st).deep_view().len() && old(st).deep_view()[i].1.len() < (
            #[trigger] final(st).deep_view()[i].1).len(),
{
    let ghost o = st.deep_view();
    match find_key(st, x) {
        None => {
            proof {
                assert forall|i: int| 0 <= i < o.len() implies o[i].0 != x@ by {
                    assert(o[i].0 == old(st)@[i].0@);
                }
                assert(sets_view(o) =~= upd_set(sets_view(o), x@, add.deep_view().to_set()));
            }
            false
        },
        Some(k) => {
            let entry = st.remove(k);
            let ghost mid = st@;
            let (name, mut s) = entry;
            proof {
                assert(s.deep_view() == o[k as int].1);
                assert(o[k as int].1.no_duplicates());
            }
            let grew = extend_absent(&mut s, add);
            let new_entry = (name, s);
            let ghost ev = new_entry;
            st.insert(k, new_entry);
            proof {
                old(st)@.remove_ensures(k as int);
                mid.insert_ensures(k as int, ev);
                assert(o[k as int].0 == x@);
                assert forall|i: int| 0 <= i < o.len() && i != k implies st.deep_view()[i]
                    == o[i] by {
                    if i < k {
                        assert(st@[i] == old(st)@[i]);
                    } else {
                        assert(st@[i] == mid[i - 1]);
                        assert(mid[i - 1] == old(st)@[i]);
                    }
                }
                assert(st.deep_view()[k as int].0 == x@);
                assert forall|i: int| 0 <= i < o.len() && o[i].0 == x@ implies i == k by {
                    if i < k {
                        assert(o[i].0 == old(st)@[i].0@);
                    }
                }
                assert(st.deep_view()[k as int].1 == ev.1.deep_view());
                assert forall|i: int|
                    0 <= i < o.len() implies (#[trigger] st.deep_view()[i].1).no_duplicates()
                    && o[i].1.len() <= st.deep_view()[i].1.len() by {
                    if i != k {
                        assert(st.deep_view()[i] == o[i]);
                    }
                }
                assert(sets_view(st.deep_view()) =~~= upd_set(
                    sets_view(o),
                    x@,
                    add.deep_view().to_set(),
                ));
                if grew {
                    assert(o[k as int].1.len() < st.deep_view()[k as int].1.len());
                } else {
                    assert(st.deep_view() =~= o);
                }
            }
            grew
        },
    }
}

/// An exact copy of a family of named lexeme lists.
fn clone_sets(v: &Vec<(String, Vec<String>)>) -> (r: Vec<(String, Vec<String>)>)
    ensures
        r.deep_view() == v.deep_view(),
{
    let mut r: Vec<(String, Vec<String>)> = Vec::new();
    let mut i: usize = 0;
    while i < v.len()
        invariant
            i <= v@.len(),
            r@.len() == i,
            forall|k: int| 0 <= k < i ==> #[trigger] r.deep_view()[k] == v.deep_view()[k],
        decreases v@.len() - i,
    {
        let ghost rb = r.deep_view();
        let name = v[i].0.clone();
        let lexes = clone_lexemes(&v[i].1);
        let entry = (name, lexes);
        let ghost ed = entry;
        r.push(entry);
        proof {
            assert(r.deep_view() =~= rb.push(ed.deep_view()));
            assert(ed.0@ == v.deep_view()[i as int].0);
            assert(ed.1.deep_view() == v.deep_view()[i as int].1);
            assert(ed.deep_view() == v.deep_view()[i as int]);
        }
        i += 1;
    }
    proof {
        assert(r.deep_view() =~= v.deep_view());
    }
    r
}

/// The state invariants one FOLLOW pass maintains over the evolving
/// family, relative to the pass-start snapshot `o`.
spec fn fp_state_inv(
    o: Seq<(Seq<char>, Seq<Seq<char>>)>,
    cur: Seq<(Seq<char>, Seq<Seq<char>>)>,
    changed: bool,
) -> bool {
    &&& cur.len() == o.len()
    &&& forall|i: int| 0 <= i < o.len() ==> #[trigger] cur[i].0 == o[i].0
    &&& keys_unique(cur)
    &&& forall|i: int| 0 <= i < o.len() ==> (#[trigger] cur[i].1).no_duplicates()
    &&& forall|i: int| 0 <= i < o.len() ==> o[i].1.len() <= (#[trigger] cur[i].1).len()
    &&& !changed ==> cur == o
    &&& changed ==> exists|i: int| 0 <= i < o.len() && o[i].1.len() < (#[trigger] cur[i].1).len()
}

/// Everything one FOLLOW pass guarantees.
spec fn follow_pass_post(
    g: Seq<(Seq<char>, Seq<Seq<GSym>>)>,
    f1: Seq<(Seq<char>, Seq<Seq<char>>)>,
    o: Seq<(Seq<char>, Seq<Seq<char>>)>,
    new: Seq<(Seq<char>, Seq<Seq<char>>)>,
    changed: bool,
) -> bool {
    &&& fp_state_inv(o, new, changed)
    &&& sets_view(new) == follow_step(g, f1, sets_view(o))
}

/// One full FOLLOW pass: for every production, the forward rule over its
/// adjacent pairs, then the trailing scan, with head FOLLOW sets answered
/// from the snapshot `prev`. Reports whether anything was added anywhere.
#[verifier::rlimit(100)]
fn follow_pass(
    rules: &Vec<(String, Vec<Vec<Symbol>>)>,
    first: &Vec<(String, Vec<String>)>,
    prev: &Vec<(String, Vec<String>)>,
) -> (res: (Vec<(String, Vec<String>)>, bool))
    requires
        keys_unique(prev.deep_view()),
        forall|i: int|
            0 <= i < prev.deep_view().len() ==> (#[trigger] prev.deep_view()[i].1).no_duplicates(),
    ensures
        follow_pass_post(rules.deep_view(), first.deep_view(), prev.deep_view(), res.0.deep_view(), res.1),
{
    let ghost g = rules.deep_view();
    let ghost f1 = first.deep_view();
    let ghost o = prev.deep_view();
    let ghost fpv = sets_view(o);
    let mut cur = clone_sets(prev);
    let mut changed = false;
    let mut i: usize = 0;
    while i < rules.len()
        invariant
            g == rules.deep_view(),
            f1 == first.deep_view(),
            o == prev.deep_view(),
            fpv == sets_view(o),
            keys_unique(o),
            i <= g.len(),
            fp_state_inv(o, cur.deep_view(), changed),
            sets_view(cur.deep_view()) == rules_follow_step(g, f1, fpv, fpv, i as int),
        decreases g.len() - i,
    {
        let prods = &rules[i].1;
        let head = &rules[i].0;
        let ghost st_i = sets_view(cur.deep_view());
        proof {
            assert(head@ == g[i as int].0);
        }
        let mut j: usize = 0;
        while j < prods.len()
            invariant
                g == rules.deep_view(),
                f1 == first.deep_view(),
                o == prev.deep_view(),
                fpv == sets_view(o),
                keys_unique(o),
                i < g.len(),
                prods.deep_view() == g[i as int].1,
                head@ == g[i as int].0,
                j <= g[i as int].1.len(),
                fp_state_inv(o, cur.deep_view(), changed),
                sets_view(cur.deep_view()) == prods_follow_step(
                    f1,
                    fpv,
                    g[i as int].0,
                    g[i as int].1.take(j as int),
                    st_i,
                ),
            decreases g[i as int].1.len() - j,
        {
            let p = &prods[j];
            let ghost pd = g[i as int].1[j as int];
            let ghost st_p = sets_view(cur.deep_view());
            // forward rule over adjacent pairs
            let mut k: usize = 1;
            while k < p.len()
                invariant
                    g == rules.deep_view(),
                    f1 == first.deep_view(),
                    o == prev.deep_view(),
                    fpv == sets_view(o),
                    keys_unique(o),
                    p.deep_view() == pd,
                    1 <= k,
                    pd.len() == 0 ==> k == 1,
                    pd.len() > 0 ==> k <= pd.len(),
                    fp_state_inv(o, cur.deep_view(), changed),
                    sets_view(cur.deep_view()) == fwd_upto(f1, pd, st_p, k as int - 1),
                decreases pd.len() - k,
            {
                match &p[k - 1] {
                    Symbol::Terminal(_) => {
                        proof {
                            assert(pd[k as int - 1] matches GSym::Terminal(_));
                            assert(fwd_upto(f1, pd, st_p, k as int) == fwd_upto(
                                f1,
                                pd,
                                st_p,
                                k as int - 1,
                            ));
                        }
                    },
                    Symbol::Nonterminal(x) => {
                        proof {
                            assert(pd[k as int - 1] == GSym::Nonterminal(x@));
                        }
                        let add = succ_elems(first, &p[k]);
                        let ghost before = cur.deep_view();
                        let grew = merge_into(&mut cur, x, &add);
                        proof {
                            assert(add.deep_view().to_set() == succ_terminals(
                                f1,
                                pd[k as int],
                            ));
                            assert(sets_view(cur.deep_view()) == upd_set(
                                fwd_upto(f1, pd, st_p, k as int - 1),
                                x@,
                                succ_terminals(f1, pd[k as int]),
                            ));
                            assert(fwd_upto(f1, pd, st_p, k as int) == upd_set(
                                fwd_upto(f1, pd, st_p, k as int - 1),
                                x@,
                                succ_terminals(f1, pd[k as int]),
                            ));
                            if grew {
                                let w = choose|ii: int|
                                    0 <= ii < before.len() && before[ii].1.len() < (
                                    #[trigger] cur.deep_view()[ii].1).len();
                                assert(o[w].1.len() < cur.deep_view()[w].1.len());
                            }
                        }
                        changed = changed || grew;
                    },
                }
                k += 1;
            }
            proof {
                if pd.len() == 0 {
                    assert(fwd_upto(f1, pd, st_p, 0) == st_p);
                    assert(fwd_all(f1, pd, st_p) == st_p);
                } else {
                    assert(k == pd.len());
                    assert(fwd_all(f1, pd, st_p) == fwd_upto(f1, pd, st_p, pd.len() - 1));
                }
                assert(sets_view(cur.deep_view()) == fwd_all(f1, pd, st_p));
            }
            let ghost st_f = sets_view(cur.deep_view());
            // trailing rule, scanning from the last symbol leftward
            let empty_lex: Vec<String> = Vec::new();
            let hvec: &Vec<String> = match find_key(prev, head) {
                Some(kk) => {
                    proof {
                        assert forall|l: int| 0 <= l < kk implies fpv[l].0 != head@ by {
                            assert(o[l].0 == prev@[l].0@);
                        }
                        assert(fpv[kk as int].0 == head@);
                        lemma_assoc_get_at(fpv, head@, kk as int);
                    }
                    &prev[kk].1
                },
                None => {
                    proof {
                        assert forall|l: int| 0 <= l < fpv.len() implies fpv[l].0 != head@ by {
                            assert(o[l].0 == prev@[l].0@);
                        }
                        lemma_assoc_get_none(fpv, head@);
                        assert(empty_lex.deep_view().to_set() =~= Set::<Seq<char>>::empty());
                    }
                    &empty_lex
                },
            };
            let ghost hset = head_set(fpv, g[i as int].0);
            proof {
                assert(hvec.deep_view().to_set() == hset);
            }
            let mut k: usize = p.len();
            let mut active = true;
            while active && k > 0
                invariant
                    g == rules.deep_view(),
                    f1 == first.deep_view(),
                    o == prev.deep_view(),
                    fpv == sets_view(o),
                    keys_unique(o),
                    p.deep_view() == pd,
                    k <= pd.len(),
                    hvec.deep_view().to_set() == hset,
                    fp_state_inv(o, cur.deep_view(), changed),
                    active ==> trail_from(f1, hset, pd, st_f, pd.len() - 1) == trail_from(
                        f1,
                        hset,
                        pd,
                        sets_view(cur.deep_view()),
                        k as int - 1,
                    ),
                    !active ==> trail_from(f1, hset, pd, st_f, pd.len() - 1) == sets_view(
                        cur.deep_view(),
                    ),
                decreases k,
            {
                let idx = k - 1;
                let ghost sv_here = sets_view(cur.deep_view());
                match &p[idx] {
                    Symbol::Terminal(_) => {
                        proof {
                            assert(pd[idx as int] matches GSym::Terminal(_));
                            assert(trail_from(f1, hset, pd, sv_here, idx as int) == sv_here);
                        }
                        active = false;
                    },
                    Symbol::Nonterminal(x) => {
                        proof {
                            assert(pd[idx as int] == GSym::Nonterminal(x@));
                        }
                        let ghost before = cur.deep_view();
                        let grew = merge_into(&mut cur, x, hvec);
                        let nullable = is_nullable(first, x);
                        proof {
                            assert(sets_view(cur.deep_view()) == upd_set(
                                sets_view(before),
                                x@,
                                hset,
                            ));
                            assert(nullable == nullable_sym(f1, pd[idx as int]));
                            if nullable {
                                assert(trail_from(f1, hset, pd, sv_here, idx as int)
                                    == trail_from(
                                    f1,
                                    hset,
                                    pd,
                                    sets_view(cur.deep_view()),
                                    idx as int - 1,
                                ));
                            } else {
                                assert(trail_from(f1, hset, pd, sv_here, idx as int) == sets_view(
                                    cur.deep_view(),
                                ));
                            }
                            if grew {
                                let w = choose|ii: int|
                                    0 <= ii < before.len() && before[ii].1.len() < (
                                    #[trigger] cur.deep_view()[ii].1).len();
                                assert(o[w].1.len() < cur.deep_view()[w].1.len());
                            }
                        }
                        changed = changed || grew;
                        if !nullable {
                            active = false;
                        }
                    },
                }
                k -= 1;
            }
            proof {
                if active {
                    assert(trail_from(f1, hset, pd, sets_view(cur.deep_view()), -1) == sets_view(
                        cur.deep_view(),
                    ));
                }
                assert(sets_view(cur.deep_view()) == prod_follow_step(
                    f1,
                    fpv,
                    g[i as int].0,
                    pd,
                    st_p,
                ));
                assert(g[i as int].1.take(j + 1).drop_last() =~= g[i as int].1.take(j as int));
                assert(g[i as int].1.take(j + 1).last() == pd);
            }
            j += 1;
        }
        proof {
            assert(g[i as int].1.take(g[i as int].1.len() as int) =~= g[i as int].1);
        }
        i += 1;
    }
    proof {
        assert(follow_pass_post(g, f1, o, cur.deep_view(), changed));
    }
    (cur, changed)
}

/// An exact copy of a lexeme list.
fn clone_lexemes(v: &Vec<String>) -> (r: Vec<String>)
    ensures
        r@ == v@,
        r.deep_view() == v.deep_view(),
{
    let r = v.clone();
    proof {
        assert forall|i: int| 0 <= i < v@.len() implies r@[i] == v@[i] by {
            assert(cloned::<String>(v@[i], r@[i]));
        }
        assert(r@ =~= v@);
        assert(r.deep_view() =~= v.deep_view());
    }
    r
}

/// Everything one FIRST pass guarantees: aligned keys, duplicate-free
/// growth, per-head sets grown by exactly the pass contribution, and a
/// faithful change report.
spec fn first_pass_post(
    g: Seq<(Seq<char>, Seq<Seq<GSym>>)>,
    o: Seq<(Seq<char>, Seq<Seq<char>>)>,
    new: Seq<(Seq<char>, Seq<Seq<char>>)>,
    changed: bool,
) -> bool {
    &&& new.len() == g.len()
    &&& forall|i: int| 0 <= i < g.len() ==> #[trigger] new[i].0 == g[i].0
    &&& forall|i: int| 0 <= i < g.len() ==> (#[trigger] new[i].1).no_duplicates()
    &&& forall|i: int|
        0 <= i < g.len() ==> (#[trigger] new[i].1).to_set() == o[i].1.to_set().union(
            prods_first(g[i].1, sets_view(o)),
        )
    &&& forall|i: int| 0 <= i < g.len() ==> o[i].1.len() <= (#[trigger] new[i].1).len()
    &&& !changed ==> new == o
    &&& changed ==> exists|i: int| 0 <= i < g.len() && o[i].1.len() < (#[trigger] new[i].1).len()
}

/// One full FIRST pass: every head's set receives the contribution of each
/// of its productions, with nonterminal lookups answered from the snapshot
/// `prev`. Reports whether anything was added anywhere.
#[verifier::rlimit(60)]
fn first_pass(
    rules: &Vec<(String, Vec<Vec<Symbol>>)>,
    prev: &Vec<(String, Vec<String>)>,
) -> (res: (Vec<(String, Vec<String>)>, bool))
    requires
        prev.deep_view().len() == rules.deep_view().len(),
        forall|i: int|
            0 <= i < prev.deep_view().len() ==> #[trigger] prev.deep_view()[i].0
                == rules.deep_view()[i].0,
        forall|i: int|
            0 <= i < prev.deep_view().len() ==> (#[trigger] prev.deep_view()[i].1).no_duplicates(),
    ensures
        first_pass_post(rules.deep_view(), prev.deep_view(), res.0.deep_view(), res.1),
{
    let ghost g = rules.deep_view();
    let ghost o = prev.deep_view();
    let mut out: Vec<(String, Vec<String>)> = Vec::new();
    let mut changed = false;
    let mut i: usize = 0;
    while i < rules.len()
        invariant
            g == rules.deep_view(),
            o == prev.deep_view(),
            o.len() == g.len(),
            forall|k: int| 0 <= k < g.len() ==> #[trigger] o[k].0 == g[k].0,
            forall|k: int| 0 <= k < g.len() ==> (#[trigger] o[k].1).no_duplicates(),
            i <= g.len(),
            out.deep_view().len() == i,
            forall|k: int| 0 <= k < i ==> #[trigger] out.deep_view()[k].0 == g[k].0,
            forall|k: int| 0 <= k < i ==> (#[trigger] out.deep_view()[k].1).no_duplicates(),
            forall|k: int|
                0 <= k < i ==> (#[trigger] out.deep_view()[k].1).to_set() == o[k].1.to_set().union(
                    prods_first(g[k].1, sets_view(o)),
                ),
            forall|k: int| 0 <= k < i ==> o[k].1.len() <= (#[trigger] out.deep_view()[k].1).len(),
            !changed ==> forall|k: int| 0 <= k < i ==> #[trigger] out.deep_view()[k].1 == o[k].1,
            changed ==> exists|k: int|
                0 <= k < i && o[k].1.len() < (#[trigger] out.deep_view()[k].1).len(),
        decreases g.len() - i,
    {
        let mut s = clone_lexemes(&prev[i].1);
        let mut grew = false;
        let prods = &rules[i].1;
        proof {
            assert(s.deep_view() == o[i as int].1);
            assert(o[i as int].1.no_duplicates());
            assert(g[i as int].1.take(0) =~= Seq::<Seq<GSym>>::empty());
            assert(prods_first(g[i as int].1.take(0), sets_view(o)) =~= Set::<Seq<char>>::empty());
            assert(s.deep_view().to_set() =~= o[i as int].1.to_set().union(
                prods_first(g[i as int].1.take(0), sets_view(o)),
            ));
        }
        let mut j: usize = 0;
        while j < prods.len()
            invariant
                g == rules.deep_view(),
                o == prev.deep_view(),
                o.len() == g.len(),
                forall|k: int| 0 <= k < g.len() ==> #[trigger] o[k].0 == g[k].0,
                i < g.len(),
                prods.deep_view() == g[i as int].1,
                j <= g[i as int].1.len(),
                s.deep_view().no_duplicates(),
                s.deep_view().to_set() == o[i as int].1.to_set().union(
                    prods_first(g[i as int].1.take(j as int), sets_view(o)),
                ),
                o[i as int].1.len() <= s.deep_view().len(),
                !grew ==> s.deep_view() == o[i as int].1,
                grew <==> o[i as int].1.len() < s.deep_view().len(),
            decreases g[i as int].1.len() - j,
        {
            let ghost pj = g[i as int].1[j as int];
            let ghost before = s.deep_view();
            let p = &prods[j];
            let ghost delta = prod_first(pj, sets_view(o));
            if p.len() == 0 {
                let a = push_absent(&mut s, String::new());
                grew = grew || a;
                proof {
                    assert(delta =~= Set::empty().insert(epsilon()));
                    assert(s.deep_view().to_set() =~= before.to_set().union(delta));
                }
            } else {
                match &p[0] {
                    Symbol::Terminal(t) => {
                        let a = push_absent(&mut s, t.clone());
                        grew = grew || a;
                        proof {
                            assert(pj[0] == GSym::Terminal(t@));
                            assert(delta =~= Set::empty().insert(t@));
                            assert(s.deep_view().to_set() =~= before.to_set().union(delta));
                        }
                    },
                    Symbol::Nonterminal(nm) => {
                        proof {
                            assert(pj[0] == GSym::Nonterminal(nm@));
                        }
                        match find_key(prev, nm) {
                            Some(k) => {
                                let a = extend_absent(&mut s, &prev[k].1);
                                grew = grew || a;
                                proof {
                                    assert forall|l: int| 0 <= l < k implies sets_view(o)[l].0
                                        != nm@ by {
                                        assert(prev@[l].0@ == o[l].0);
                                    }
                                    assert(sets_view(o)[k as int].0 == nm@);
                                    lemma_assoc_get_at(sets_view(o), nm@, k as int);
                                    assert(delta == o[k as int].1.to_set());
                                    assert(s.deep_view().to_set() =~= before.to_set().union(
                                        delta,
                                    ));
                                }
                            },
                            None => {
                                proof {
                                    assert forall|l: int|
                                        0 <= l < sets_view(o).len() implies sets_view(o)[l].0
                                        != nm@ by {
                                        assert(prev@[l].0@ == o[l].0);
                                    }
                                    lemma_assoc_get_none(sets_view(o), nm@);
                                    assert(delta =~= Set::<Seq<char>>::empty());
                                    assert(s.deep_view().to_set() =~= before.to_set().union(
                                        delta,
                                    ));
                                }
                            },
                        }
                    },
                }
            }
            proof {
                assert(g[i as int].1.take(j + 1).drop_last() =~= g[i as int].1.take(j as int));
                assert(g[i as int].1.take(j + 1).last() == pj);
                assert(prods_first(g[i as int].1.take(j + 1), sets_view(o)) == prods_first(
                    g[i as int].1.take(j as int),
                    sets_view(o),
                ).union(delta));
                assert(s.deep_view().to_set() =~= o[i as int].1.to_set().union(
                    prods_first(g[i as int].1.take(j + 1), sets_view(o)),
                ));
            }
            j += 1;
        }
        proof {
            assert(g[i as int].1.take(g[i as int].1.len() as int) =~= g[i as int].1);
        }
        let ghost changed_before = changed;
        changed = changed || grew;
        let name = rules[i].0.clone();
        let ghost out_before = out.deep_view();
        out.push((name, s));
        proof {
            assert(out.deep_view() =~= out_before.push((g[i as int].0, s.deep_view())));
            if grew {
                assert(o[i as int].1.len() < out.deep_view()[i as int].1.len());
            } else if changed_before {
                let w = choose|k: int|
                    0 <= k < i && o[k].1.len() < (#[trigger] out_before[k].1).len();
                assert(o[w].1.len() < out.deep_view()[w].1.len());
            }
        }
        i += 1;
    }
    proof {
        if !changed {
            assert forall|k: int| 0 <= k < g.len() implies out.deep_view()[k] == o[k] by {
                assert(out.deep_view()[k].1 == o[k].1);
                assert(out.deep_view()[k].0 == g[k].0);
                assert(o[k].0 == g[k].0);
            }
            assert(out.deep_view() =~= o);
        }
        assert(first_pass_post(g, o, out.deep_view(), changed));
    }
    (out, changed)
}

/// An exact copy of a symbol list.
fn clone_symbols(v: &Vec<Symbol>) -> (r: Vec<Symbol>)
    ensures
        r.deep_view() == v.deep_view(),
{
    let mut r: Vec<Symbol> = Vec::new();
    let mut i: usize = 0;
    while i < v.len()
        invariant
            i <= v@.len(),
            r@.len() == i,
            forall|k: int| 0 <= k < i ==> #[trigger] r.deep_view()[k] == v.deep_view()[k],
        decreases v@.len() - i,
    {
        let ghost rb = r.deep_view();
        let s = v[i].clone();
        let ghost sd = s@;
        r.push(s);
        proof {
            assert(r.deep_view() =~= rb.push(sd));
            assert(sd == v.deep_view()[i as int]);
        }
        i += 1;
    }
    proof {
        assert(r.deep_view() =~= v.deep_view());
    }
    r
}

/// Stores a prediction-table cell: (nonterminal `a`, lookahead `la`) maps
/// to the production `prod` of `head`. An existing cell for the same pair
/// is replaced; the result reports whether one existed.
fn tbl_insert(
    table: &mut Vec<((String, String), (String, Vec<Symbol>))>,
    a: &String,
    la: &String,
    head: &String,
    prod: &Vec<Symbol>,
) -> (was_there: bool)
    requires
        keys_unique(old(table).deep_view()),
    ensures
        final(table).deep_view() == assoc_put(
            old(table).deep_view(),
            (a@, la@),
            (head@, prod.deep_view()),
        ),
        was_there == (assoc_get(old(table).deep_view(), (a@, la@)) is Some),
        keys_unique(final(table).deep_view()),
{
    let ghost o = table.deep_view();
    let found = tbl_find(table, a, la);
    match found {
        Some(j) => {
            let _ = table.remove(j);
            let ghost mid = table@;
            let new_entry = ((a.clone(), la.clone()), (head.clone(), clone_symbols(prod)));
            let ghost ev = new_entry;
            table.insert(j, new_entry);
            proof {
                lemma_assoc_put_at(o, (a@, la@), (head@, prod.deep_view()), j as int);
                lemma_assoc_get_at(o, (a@, la@), j as int);
                old(table)@.remove_ensures(j as int);
                mid.insert_ensures(j as int, ev);
                assert(ev.deep_view() == ((a@, la@), (head@, prod.deep_view())));
                assert forall|l: int| 0 <= l < o.len() && l != j implies table.deep_view()[l]
                    == o[l] by {
                    if l < j {
                        assert(table@[l] == old(table)@[l]);
                    } else {
                        assert(table@[l] == mid[l - 1]);
                        assert(mid[l - 1] == old(table)@[l]);
                    }
                }
                assert(table.deep_view() =~~= o.update(
                    j as int,
                    ((a@, la@), (head@, prod.deep_view())),
                ));
                assert forall|l1: int, l2: int|
                    0 <= l1 < l2 < table.deep_view().len() implies table.deep_view()[l1].0
                    != table.deep_view()[l2].0 by {
                    assert(table.deep_view()[l1].0 == o[l1].0);
                    assert(table.deep_view()[l2].0 == o[l2].0);
                }
            }
            true
        },
        None => {
            let new_entry = ((a.clone(), la.clone()), (head.clone(), clone_symbols(prod)));
            let ghost ev = new_entry;
            table.push(new_entry);
            proof {
                lemma_assoc_put_new(o, (a@, la@), (head@, prod.deep_view()));
                lemma_assoc_get_none(o, (a@, la@));
                assert(ev.deep_view() == ((a@, la@), (head@, prod.deep_view())));
                assert(table.deep_view() =~~= o.push(((a@, la@), (head@, prod.deep_view()))));
                assert forall|l1: int, l2: int|
                    0 <= l1 < l2 < table.deep_view().len() implies table.deep_view()[l1].0
                    != table.deep_view()[l2].0 by {
                    if l2 == o.len() {
                        assert(table.deep_view()[l1].0 == o[l1].0);
                    }
                }
            }
            false
        },
    }
}

/// Index of the cell stored for (nonterminal `a`, lookahead `la`), if any.
fn tbl_find(
    table: &Vec<((String, String), (String, Vec<Symbol>))>,
    a: &String,
    la: &String,
) -> (r: Option<usize>)
    ensures
        match r {
            Some(j) => {
                &&& j < table.deep_view().len()
                &&& table.deep_view()[j as int].0 == (a@, la@)
                &&& forall|l: int| 0 <= l < j ==> #[trigger] table.deep_view()[l].0 != (a@, la@)
            },
            None => forall|l: int|
                0 <= l < table.deep_view().len() ==> #[trigger] table.deep_view()[l].0 != (
                a@,
                la@,
                ),
        },
{
    let ghost o = table.deep_view();
    let mut idx: usize = 0;
    while idx < table.len()
        invariant
            o == table.deep_view(),
            idx <= o.len(),
            forall|l: int| 0 <= l < idx ==> #[trigger] o[l].0 != (a@, la@),
        decreases table@.len() - idx,
    {
        if table[idx].0.0 == *a && table[idx].0.1 == *la {
            proof {
                assert(o[idx as int].0 == (a@, la@));
            }
            return Some(idx);
        }
        proof {
            assert(o[idx as int].0.0 == table@[idx as int].0.0@);
            assert(o[idx as int].0.1 == table@[idx as int].0.1@);
        }
        idx += 1;
    }
    None
}

/// The tokens from position `pos` on, copied.
fn rest_tokens(input: &Vec<String>, pos: usize) -> (r: Vec<String>)
    requires
        pos <= input@.len(),
    ensures
        r.deep_view() == input.deep_view().skip(pos as int),
{
    let mut r: Vec<String> = Vec::new();
    let mut i: usize = pos;
    while i < input.len()
        invariant
            pos <= i <= input@.len(),
            r@.len() == i - pos,
            forall|k: int|
                0 <= k < i - pos ==> #[trigger] r.deep_view()[k] == input.deep_view()[k + pos],
        decreases input@.len() - i,
    {
        let ghost rb = r.deep_view();
        let s = input[i].clone();
        let ghost sd = s@;
        r.push(s);
        proof {
            assert(r.deep_view() =~= rb.push(sd));
            assert(sd == input.deep_view()[i as int]);
        }
        i += 1;
    }
    proof {
        assert(r.deep_view() =~= input.deep_view().skip(pos as int));
    }
    r
}

/// One emitted derivation step: the stack before the step (bottom first),
/// the input not yet consumed, and the expansion applied, `None` where a
/// terminal was matched.
#[derive(Debug, PartialEq, Eq)]
pub struct TraceRecord {
    pub stack: Vec<Symbol>,
    pub remaining: Vec<String>,
    pub expansion: Option<(String, Vec<Symbol>)>,
}

impl DeepView for TraceRecord {
    type V = TraceRec;

    open spec fn deep_view(&self) -> TraceRec {
        TraceRec {
            stack: self.stack.deep_view(),
            remaining: self.remaining.deep_view(),
            expansion: match self.expansion {
                Some((ref h, ref p)) => Some((h@, p.deep_view())),
                None => None,
            },
        }
    }
}

/// Why a parse failed, with the offending symbols and input position.
#[derive(Debug, PartialEq, Eq)]
pub enum ParseError {
    /// The terminal on the stack differs from the lookahead.
    UnexpectedTerminal { expected: String, found: String, at: usize },
    /// The prediction table holds no cell for this nonterminal under this
    /// lookahead.
    NoProduction { nonterminal: String, lookahead: String, at: usize },
    /// The transition budget ran out before the parse ended.
    StepLimit,
}

/// The executable result mirrors the driver's outcome exactly.
pub open spec fn result_matches(o: DriveOutcome, r: Result<Vec<TraceRecord>, ParseError>) -> bool {
    match r {
        Ok(tr) => o matches DriveOutcome::Accepted { trace, .. } && trace == tr.deep_view(),
        Err(e) => match e {
            ParseError::UnexpectedTerminal { ref expected, ref found, at } => o
                == (DriveOutcome::UnexpectedTerminal {
                expected: expected@,
                found: found@,
                at: at as nat,
            }),
            ParseError::NoProduction { ref nonterminal, ref lookahead, at } => o
                == (DriveOutcome::NoProduction {
                nonterminal: nonterminal@,
                lookahead: lookahead@,
                at: at as nat,
            }),
            ParseError::StepLimit => o is OutOfSteps,
        },
    }
}

/// Prepends already-emitted records to an outcome's trace.
pub open spec fn with_prefix(pre: Seq<TraceRec>, o: DriveOutcome) -> DriveOutcome {
    match o {
        DriveOutcome::Accepted { consumed, left, trace } => DriveOutcome::Accepted {
            consumed,
            left,
            trace: pre + trace,
        },
        other => other,
    }
}

} // verus!
