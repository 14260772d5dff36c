//! Absorbing Markov chain analysis: which states are absorbing, which are
//! transient, and the choice of pivot rows when the fundamental matrix is
//! computed by Gauss-Jordan elimination.

use vstd::prelude::*;

verus! {

/// `r` lists, in increasing order, exactly the states below `n` that satisfy
/// `member`.
pub open spec fn lists_states(r: Seq<usize>, n: nat, member: spec_fn(usize) -> bool) -> bool {
    &&& forall|k: int| 0 <= k < r.len() ==> (r[k] as nat) < n && member(#[trigger] r[k])
    &&& forall|k: int, l: int| 0 <= k < l < r.len() ==> r[k] < r[l]
    &&& forall|i: usize| (i as nat) < n && #[trigger] member(i) ==> r.contains(i)
}

/// Lists the absorbing states, in increasing order. `is_absorbing[i]` tells
/// whether state `i` leaves itself with probability one.
pub fn find_absorbing_states(is_absorbing: &Vec<bool>) -> (r: Vec<usize>)
    ensures
        lists_states(r@, is_absorbing.len() as nat, |i: usize| is_absorbing@[i as int]),
        forall|k: int| 0 <= k < r.len() ==> r@[k] < is_absorbing.len() && is_absorbing@[#[trigger] r@[k] as int],
        forall|k: int, l: int| 0 <= k < l < r.len() ==> r@[k] < r@[l],
        forall|i: int| 0 <= i < is_absorbing.len() && #[trigger] is_absorbing@[i] ==> r@.contains(i as usize),
{
    let n = is_absorbing.len();
    let mut r: Vec<usize> = Vec::new();
    let mut i: usize = 0;
    while i < n
        invariant
            n == is_absorbing.len(),
            i <= n,
            forall|k: int| 0 <= k < r.len() ==> r@[k] < i && is_absorbing@[#[trigger] r@[k] as int],
            forall|k: int, l: int| 0 <= k < l < r.len() ==> r@[k] < r@[l],
            forall|j: usize| j < i && #[trigger] is_absorbing@[j as int] ==> r@.contains(j),
        decreases n - i,
    {
        if is_absorbing[i] {
            proof {
                assert forall|j: usize| j < i + 1 && #[trigger] is_absorbing@[j as int] implies r@.push(
                    i,
                ).contains(j) by {
                    if j == i {
                        assert(r@.push(i)[r.len() as int] == i);
                    } else {
                        let k = choose|k: int| 0 <= k < r.len() && r@[k] == j;
                        assert(r@.push(i)[k] == j);
                    }
                }
            }
            r.push(i);
        } else {
            proof {
                assert forall|j: usize| j < i + 1 && #[trigger] is_absorbing@[j as int] implies r@.contains(j) by {
                    assert(j != i);
                }
            }
        }
        i = i + 1;
    }
    r
}

/// Whether `x` occurs in `v`.
fn occurs(v: &Vec<usize>, x: usize) -> (r: bool)
    ensures
        r == v@.contains(x),
{
    let mut k: usize = 0;
    while k < v.len()
        invariant
            k <= v.len(),
            forall|j: int| 0 <= j < k ==> v@[j] != x,
        decreases v.len() - k,
    {
        if v[k] == x {
            return true;
        }
        k = k + 1;
    }
    false
}

/// Lists, in increasing order, the states below `n` that are not in
/// `absorbing`: the transient states.
pub fn transient_states(n: usize, absorbing: &Vec<usize>) -> (r: Vec<usize>)
    ensures
        lists_states(r@, n as nat, |i: usize| !absorbing@.contains(i)),
        forall|k: int| 0 <= k < r.len() ==> r@[k] < n && !absorbing@.contains(#[trigger] r@[k]),
        forall|k: int, l: int| 0 <= k < l < r.len() ==> r@[k] < r@[l],
        forall|i: usize| i < n && !absorbing@.contains(i) ==> #[trigger] r@.contains(i),
{
    let mut r: Vec<usize> = Vec::new();
    let mut i: usize = 0;
    while i < n
        invariant
            i <= n,
            forall|k: int|
                0 <= k < r.len() ==> r@[k] < i && !absorbing@.contains(#[trigger] r@[k]),
            forall|k: int, l: int| 0 <= k < l < r.len() ==> r@[k] < r@[l],
            forall|j: usize| j < i && !absorbing@.contains(j) ==> #[trigger] r@.contains(j),
        decreases n - i,
    {
        if !occurs(absorbing, i) {
            proof {
                assert forall|j: usize| j < i + 1 && !absorbing@.contains(j) implies #[trigger] r@.push(
                    i,
                ).contains(j) by {
                    if j == i {
                        assert(r@.push(i)[r.len() as int] == i);
                    } else {
                        assert(r@.contains(j));
                        let k = choose|k: int| 0 <= k < r.len() && r@[k] == j;
                        assert(r@.push(i)[k] == j);
                    }
                }
            }
            r.push(i);
        }
        i = i + 1;
    }
    r
}

/// The states below `n`, as a set.
spec fn states_below(n: nat) -> Set<usize> {
    Set::new(|i: usize| (i as nat) < n)
}

proof fn lemma_states_below_len(n: nat)
    requires
        n <= usize::MAX + 1,
    ensures
        states_below(n).finite(),
        states_below(n).len() == n,
    decreases n,
{
    if n == 0 {
        assert(states_below(n) =~= Set::empty());
    } else {
        lemma_states_below_len((n - 1) as nat);
        assert(states_below((n - 1) as nat).insert((n - 1) as usize) =~= states_below(n));
    }
}

/// A listing in increasing order holds each state once, so it has as many
/// entries as its set of states.
proof fn lemma_listing_len(r: Seq<usize>, n: nat, member: spec_fn(usize) -> bool)
    requires
        lists_states(r, n, member),
    ensures
        r.to_set().len() == r.len(),
        r.to_set().finite(),
{
    assert(r.no_duplicates()) by {
        assert forall|k: int, l: int| 0 <= k < r.len() && 0 <= l < r.len() && k != l implies r[k]
            != r[l] by {
            if k < l {
                assert(r[k] < r[l]);
            } else {
                assert(r[l] < r[k]);
            }
        }
    }
    r.unique_seq_to_set();
    r.lemma_cardinality_of_set();
}

/// Each state of a chain is either absorbing or transient, and never both:
/// given `is_absorbing`, the absorbing states listed from it and the
/// transient states listed from those, every state below
/// `is_absorbing.len()` occurs in exactly one of the two lists, the
/// transient ones being those not flagged absorbing, and the two lists
/// together have one entry per state.
pub proof fn lemma_absorbing_transient_partition(
    is_absorbing: Seq<bool>,
    absorbing: Seq<usize>,
    transient: Seq<usize>,
)
    requires
        is_absorbing.len() <= usize::MAX,
        lists_states(absorbing, is_absorbing.len(), |i: usize| is_absorbing[i as int]),
        lists_states(transient, is_absorbing.len(), |i: usize| !absorbing.contains(i)),
    ensures
        forall|i: usize|
            (i as nat) < is_absorbing.len() ==> (absorbing.contains(i) <==> is_absorbing[i as int])
                && (transient.contains(i) <==> !is_absorbing[i as int]),
        absorbing.len() + transient.len() == is_absorbing.len(),
{
    let n = is_absorbing.len();
    let fa = |i: usize| is_absorbing[i as int];
    let ft = |i: usize| !absorbing.contains(i);
    assert forall|i: usize| (i as nat) < n implies (absorbing.contains(i) <==> is_absorbing[
        i as int]) && (transient.contains(i) <==> !is_absorbing[i as int]) by {
        if absorbing.contains(i) {
            let k = choose|k: int| 0 <= k < absorbing.len() && absorbing[k] == i;
            assert(fa(absorbing[k]));
        }
        if is_absorbing[i as int] {
            assert(fa(i));
        }
        if transient.contains(i) {
            let k = choose|k: int| 0 <= k < transient.len() && transient[k] == i;
            assert(ft(transient[k]));
        }
        if !absorbing.contains(i) {
            assert(ft(i));
        }
    }
    lemma_listing_len(absorbing, n, fa);
    lemma_listing_len(transient, n, ft);
    lemma_states_below_len(n);
    let sa = absorbing.to_set();
    let st = transient.to_set();
    assert(sa.disjoint(st)) by {
        assert forall|x: usize| sa.contains(x) implies !st.contains(x) by {
            let k = choose|k: int| 0 <= k < absorbing.len() && absorbing[k] == x;
            assert(fa(absorbing[k]));
            assert(absorbing.contains(x));
            if st.contains(x) {
                let l = choose|l: int| 0 <= l < transient.len() && transient[l] == x;
                assert(ft(transient[l]));
            }
        }
    }
    assert(sa + st =~= states_below(n)) by {
        assert forall|x: usize| (sa + st).contains(x) implies (x as nat) < n by {
            if sa.contains(x) {
                let k = choose|k: int| 0 <= k < absorbing.len() && absorbing[k] == x;
                assert(fa(absorbing[k]));
            } else {
                let l = choose|l: int| 0 <= l < transient.len() && transient[l] == x;
                assert(ft(transient[l]));
            }
        }
        assert forall|x: usize| (x as nat) < n implies (sa + st).contains(x) by {
            if absorbing.contains(x) {
            } else {
                assert(ft(x));
                assert(transient.contains(x));
            }
        }
    }
    vstd::set_lib::lemma_set_disjoint_lens(sa, st);
}

} // verus!
