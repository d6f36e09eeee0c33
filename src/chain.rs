//! The view-as walk, as mathematics: where following the edges from a start
//! type leads after a given number of steps.
use vstd::prelude::*;
use vstd::set_lib::{lemma_int_range, lemma_len_subset, set_int_range};

use crate::registry::TypeHandle;

verus! {

/// The type reached after `k` view-as steps from `start`, or `None` once the
/// walk has run out of edges.
pub open spec fn walk(edges: Seq<Option<TypeHandle>>, start: TypeHandle, k: nat) -> Option<
    TypeHandle,
>
    decreases k,
{
    if k == 0 {
        Some(start)
    } else {
        match walk(edges, start, (k - 1) as nat) {
            Some(u) => edges[u.index as int],
            None => None,
        }
    }
}

/// The walk from `start` ends before it has visited more types than the
/// registry holds; otherwise some type repeats and the walk never ends.
pub open spec fn walk_ends(edges: Seq<Option<TypeHandle>>, start: TypeHandle) -> bool {
    walk(edges, start, edges.len() + 1) is None
}

/// `c` is the whole chain from `start`: each type of the walk in order, up to
/// the last one, which has no view-as edge.
pub open spec fn is_chain(edges: Seq<Option<TypeHandle>>, start: TypeHandle, c: Seq<TypeHandle>) -> bool {
    &&& c.len() >= 1
    &&& forall|j: int| 0 <= j < c.len() ==> walk(edges, start, j as nat) == Some(#[trigger] c[j])
    &&& walk(edges, start, c.len()) is None
}

/// `u` is met somewhere on the walk from `start`.
pub open spec fn reaches(edges: Seq<Option<TypeHandle>>, start: TypeHandle, u: TypeHandle) -> bool {
    exists|k: nat| walk(edges, start, k) == Some(u)
}

/// Once the walk has ended it stays ended.
pub proof fn lemma_walk_stays_ended(
    edges: Seq<Option<TypeHandle>>,
    start: TypeHandle,
    k: nat,
    m: nat,
)
    requires
        k <= m,
        walk(edges, start, k) is None,
    ensures
        walk(edges, start, m) is None,
    decreases m - k,
{
    if k < m {
        lemma_walk_stays_ended(edges, start, k, (m - 1) as nat);
    }
}

/// Every edge leads to a type of the registry.
pub open spec fn edges_in_range(edges: Seq<Option<TypeHandle>>) -> bool {
    forall|i: int| 0 <= i < edges.len() ==> (#[trigger] edges[i] matches Some(u) ==> u.index < edges.len())
}

/// Some type occurs twice on the walk from `start`.
pub open spec fn repeats(edges: Seq<Option<TypeHandle>>, start: TypeHandle) -> bool {
    exists|j: nat, k: nat| j < k && #[trigger] walk(edges, start, j) is Some && walk(edges, start, j) == #[trigger] walk(edges, start, k)
}

/// While it lasts, the walk stays among the registry's types.
proof fn lemma_walk_in_range(edges: Seq<Option<TypeHandle>>, start: TypeHandle, k: nat)
    requires
        edges_in_range(edges),
        start.index < edges.len(),
    ensures
        walk(edges, start, k) matches Some(u) ==> u.index < edges.len(),
    decreases k,
{
    if k > 0 {
        lemma_walk_in_range(edges, start, (k - 1) as nat);
    }
}

/// A walk that has not ended by the time it has passed as many steps as
/// there are types has visited some type twice.
proof fn lemma_long_walk_repeats(edges: Seq<Option<TypeHandle>>, start: TypeHandle)
    requires
        edges_in_range(edges),
        start.index < edges.len(),
        !walk_ends(edges, start),
    ensures
        repeats(edges, start),
{
    let n = edges.len();
    assert forall|k: nat| k <= n + 1 implies #[trigger] walk(edges, start, k) is Some by {
        if walk(edges, start, k) is None {
            lemma_walk_stays_ended(edges, start, k, n + 1);
        }
    }
    let s = Seq::new(n + 1, |k: int| walk(edges, start, k as nat)->Some_0.index as int);
    if s.no_duplicates() {
        s.unique_seq_to_set();
        lemma_int_range(0, n as int);
        assert forall|x: int| s.to_set().contains(x) implies set_int_range(0, n as int).contains(x) by {
            let k = choose|k: int| 0 <= k < s.len() && s[k] == x;
            lemma_walk_in_range(edges, start, k as nat);
        }
        lemma_len_subset(s.to_set(), set_int_range(0, n as int));
    } else {
        let (j, k) = choose|j: int, k: int| 0 <= j < s.len() && 0 <= k < s.len() && j != k && s[j] == s[k];
        let (a, b) = if j < k { (j as nat, k as nat) } else { (k as nat, j as nat) };
        assert(walk(edges, start, a) is Some && walk(edges, start, a) == walk(edges, start, b));
    }
}

/// Once the walk is back at a type it met `k - j` steps earlier, it goes the
/// same way again.
proof fn lemma_walk_periodic(edges: Seq<Option<TypeHandle>>, start: TypeHandle, j: nat, k: nat, t: nat)
    requires
        walk(edges, start, j) == walk(edges, start, k),
    ensures
        walk(edges, start, j + t) == walk(edges, start, k + t),
    decreases t,
{
    if t > 0 {
        lemma_walk_periodic(edges, start, j, k, (t - 1) as nat);
        assert(walk(edges, start, j + t) == match walk(edges, start, (j + t - 1) as nat) {
            Some(u) => edges[u.index as int],
            None => None,
        });
        assert(walk(edges, start, k + t) == match walk(edges, start, (k + t - 1) as nat) {
            Some(u) => edges[u.index as int],
            None => None,
        });
    }
}

/// A walk that meets a type twice goes on for ever.
proof fn lemma_repeating_walk_goes_on(edges: Seq<Option<TypeHandle>>, start: TypeHandle, j: nat, k: nat, m: nat)
    requires
        j < k,
        walk(edges, start, j) is Some,
        walk(edges, start, j) == walk(edges, start, k),
    ensures
        walk(edges, start, m) is Some,
    decreases m,
{
    if m <= k {
        if walk(edges, start, m) is None {
            lemma_walk_stays_ended(edges, start, m, k);
        }
    } else {
        let t = (m - k) as nat;
        lemma_walk_periodic(edges, start, j, k, t);
        lemma_repeating_walk_goes_on(edges, start, j, k, j + t);
    }
}

/// The walk from `start` fails to end exactly when it meets some type twice.
pub proof fn lemma_endless_iff_repeats(edges: Seq<Option<TypeHandle>>, start: TypeHandle)
    requires
        edges_in_range(edges),
        start.index < edges.len(),
    ensures
        !walk_ends(edges, start) <==> repeats(edges, start),
{
    if !walk_ends(edges, start) {
        lemma_long_walk_repeats(edges, start);
    }
    if repeats(edges, start) {
        let (j, k) = choose|j: nat, k: nat| j < k && #[trigger] walk(edges, start, j) is Some && walk(edges, start, j) == #[trigger] walk(edges, start, k);
        lemma_repeating_walk_goes_on(edges, start, j, k, edges.len() + 1);
    }
}

} // verus!
