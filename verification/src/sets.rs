//! Executable duplicate-free element lists, used to represent the FIRST and
//! FOLLOW sets and the alphabet of a grammar.

use vstd::prelude::*;

verus! {

/// True when some element of `v` has view `x@`.
pub fn contains_str(v: &Vec<String>, x: &String) -> (r: bool)
    ensures
        r == v.deep_view().contains(x@),
{
    let mut i: usize = 0;
    while i < v.len()
        invariant
            i <= v.len(),
            forall|k: int| 0 <= k < i ==> v.deep_view()[k] != x@,
        decreases v.len() - i,
    {
        if v[i] == *x {
            assert(v.deep_view()[i as int] == x@);
            return true;
        }
        i += 1;
    }
    false
}

/// Adds `x` unless an equal element is already present; reports whether the
/// list grew. The stored order is preserved and stays duplicate-free.
pub fn push_absent(set: &mut Vec<String>, x: String) -> (added: bool)
    requires
        old(set).deep_view().no_duplicates(),
    ensures
        final(set).deep_view().no_duplicates(),
        final(set).deep_view().to_set() == old(set).deep_view().to_set().insert(x@),
        added ==> final(set).deep_view() == old(set).deep_view().push(x@),
        !added ==> final(set).deep_view() == old(set).deep_view(),
        added <==> final(set).deep_view().len() > old(set).deep_view().len(),
        old(set).deep_view().len() <= final(set).deep_view().len(),
{
    if contains_str(set, &x) {
        proof {
            assert(set.deep_view().to_set() =~= set.deep_view().to_set().insert(x@));
        }
        false
    } else {
        set.push(x);
        proof {
            let o = old(set).deep_view();
            let n = set.deep_view();
            assert(n =~= o + seq![x@]);
            Seq::lemma_to_set_insert_commutes(o, x@);
            assert(n.to_set() =~= o.to_set().insert(x@));
            assert forall|i: int, j: int| 0 <= i < j < n.len() implies n[i] != n[j] by {
                if j == n.len() - 1 {
                    assert(!o.contains(x@));
                    assert(o[i] == n[i]);
                }
            }
        }
        true
    }
}

/// Adds every element of `src` that is not yet present; reports whether the
/// list grew.
pub fn extend_absent(set: &mut Vec<String>, src: &Vec<String>) -> (added: bool)
    requires
        old(set).deep_view().no_duplicates(),
    ensures
        final(set).deep_view().no_duplicates(),
        final(set).deep_view().to_set() == old(set).deep_view().to_set().union(
            src.deep_view().to_set(),
        ),
        !added ==> final(set).deep_view() == old(set).deep_view(),
        added <==> final(set).deep_view().len() > old(set).deep_view().len(),
        old(set).deep_view().len() <= final(set).deep_view().len(),
{
    let ghost o = old(set).deep_view();
    let mut i: usize = 0;
    let mut grew = false;
    while i < src.len()
        invariant
            i <= src.len(),
            set.deep_view().no_duplicates(),
            set.deep_view().to_set() =~= o.to_set().union(
                src.deep_view().take(i as int).to_set(),
            ),
            !grew ==> set.deep_view() == o,
            grew <==> set.deep_view().len() > o.len(),
            o.len() <= set.deep_view().len(),
        decreases src.len() - i,
    {
        let cur = src[i].clone();
        assert(cur@ == src.deep_view()[i as int]);
        let a = push_absent(set, cur);
        grew = grew || a;
        proof {
            assert(src.deep_view().take(i + 1) =~= src.deep_view().take(i as int) + seq![
                src.deep_view()[i as int],
            ]);
            Seq::lemma_to_set_insert_commutes(
                src.deep_view().take(i as int),
                src.deep_view()[i as int],
            );
        }
        i += 1;
    }
    proof {
        assert(src.deep_view().take(src.len() as int) =~= src.deep_view());
    }
    grew
}

/// Index of the first entry of `m` whose key has view `k@`, if any.
pub fn find_key<V: View>(m: &Vec<(String, V)>, k: &String) -> (r: Option<usize>)
    ensures
        match r {
            Some(j) => {
                &&& j < m@.len()
                &&& m@[j as int].0@ == k@
                &&& forall|i: int| 0 <= i < j ==> m@[i].0@ != k@
            },
            None => forall|i: int| 0 <= i < m@.len() ==> m@[i].0@ != k@,
        },
{
    let mut i: usize = 0;
    while i < m.len()
        invariant
            i <= m@.len(),
            forall|j: int| 0 <= j < i ==> m@[j].0@ != k@,
        decreases m.len() - i,
    {
        if m[i].0 == *k {
            return Some(i);
        }
        i += 1;
    }
    None
}

} // verus!
