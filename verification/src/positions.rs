//! Positions of a list that have a property, in ascending order.

use vstd::prelude::*;

verus! {

/// The positions below `n` at which `holds` is true, in ascending order.
pub open spec fn positions_where(n: nat, holds: spec_fn(int) -> bool) -> Seq<usize>
    decreases n,
{
    if n == 0 {
        Seq::empty()
    } else {
        let rest = positions_where((n - 1) as nat, holds);
        if holds(n - 1) {
            rest.push((n - 1) as usize)
        } else {
            rest
        }
    }
}

/// Every listed position lies below `n` and has the property; the positions
/// ascend strictly; there are at most `n` of them.
pub proof fn lemma_positions_sound(n: nat, holds: spec_fn(int) -> bool)
    requires
        n <= usize::MAX,
    ensures
        positions_where(n, holds).len() <= n,
        forall|k: int|
            0 <= k < positions_where(n, holds).len() ==> (#[trigger] positions_where(n, holds)[k])
                < n && holds(positions_where(n, holds)[k] as int),
        forall|a: int, b: int|
            0 <= a < b < positions_where(n, holds).len() ==> positions_where(n, holds)[a]
                < positions_where(n, holds)[b],
    decreases n,
{
    if n > 0 {
        lemma_positions_sound((n - 1) as nat, holds);
    }
}

/// Every position below `n` that has the property is listed.
pub proof fn lemma_positions_complete(n: nat, holds: spec_fn(int) -> bool, at: int)
    requires
        n <= usize::MAX,
        0 <= at < n,
        holds(at),
    ensures
        positions_where(n, holds).contains(at as usize),
    decreases n,
{
    let rest = positions_where((n - 1) as nat, holds);
    if at == n - 1 {
        assert(positions_where(n, holds)[rest.len() as int] == at as usize);
    } else {
        lemma_positions_complete((n - 1) as nat, holds, at);
        let k = choose|k: int| 0 <= k < rest.len() && rest[k] == at as usize;
        assert(positions_where(n, holds)[k] == at as usize);
    }
}

/// Where no position below `n` has the property, none is listed.
pub proof fn lemma_positions_none(n: nat, holds: spec_fn(int) -> bool)
    requires
        forall|at: int| 0 <= at < n ==> !#[trigger] holds(at),
    ensures
        positions_where(n, holds) == Seq::<usize>::empty(),
    decreases n,
{
    if n > 0 {
        lemma_positions_none((n - 1) as nat, holds);
    }
}

} // verus!
