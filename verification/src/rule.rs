//! A single grammar rule as a standalone value: one nonterminal and one
//! right-hand side.

use vstd::prelude::*;

use crate::model::GSym;

verus! {

/// A grammar symbol, as used by standalone rules.
#[derive(Debug, PartialEq, Eq)]
pub enum Symbol {
    Nonterminal(String),
    Terminal(String),
}

impl View for Symbol {
    type V = GSym;

    open spec fn view(&self) -> GSym {
        match self {
            Symbol::Nonterminal(n) => GSym::Nonterminal(n@),
            Symbol::Terminal(t) => GSym::Terminal(t@),
        }
    }
}

impl DeepView for Symbol {
    type V = GSym;

    open spec fn deep_view(&self) -> GSym {
        self.view()
    }
}

impl Clone for Symbol {
    fn clone(&self) -> (r: Self)
        ensures
            r@ == self@,
    {
        match self {
            Symbol::Nonterminal(n) => Symbol::Nonterminal(n.clone()),
            Symbol::Terminal(t) => Symbol::Terminal(t.clone()),
        }
    }
}

/// One production: a left-hand-side symbol and its ordered right-hand side,
/// which may be empty (an epsilon production).
pub struct Rule {
    lhs: Symbol,
    rhs: Vec<Symbol>,
}

impl View for Rule {
    type V = (GSym, Seq<GSym>);

    closed spec fn view(&self) -> (GSym, Seq<GSym>) {
        (self.lhs@, self.rhs.deep_view())
    }
}

impl Rule {
    pub fn new(lhs: Symbol, rhs: Vec<Symbol>) -> (r: Rule)
        ensures
            r@ == (lhs@, rhs.deep_view()),
    {
        Rule { lhs, rhs }
    }
}

} // verus!
